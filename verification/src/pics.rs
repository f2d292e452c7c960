use vstd::prelude::*;
use crate::geom::Rect;
use crate::ui::{expect_w, num_parts, rect_of, CompStat, MAX_MASK};

verus! {

// Digit boxes of the batch cleaner for saved screenshots: components of the
// cleaned mask that look like digits, left to right, with boxes too wide for
// one digit cut into equal parts.

/// A component kept as a digit: at least 100 pixels, at least 18 high, and
/// at most three times as wide as high.
pub open spec fn pic_digit(c: CompStat) -> bool {
    c.area >= 100 && c.height >= 18 && c.width <= 3 * c.height
}

/// Whether a connected component of the cleaned mask is kept as a digit.
pub fn is_pic_digit(c: CompStat) -> (r: bool)
    ensures
        r == pic_digit(c),
{
    c.area >= 100 && c.height >= 18 && c.width as i64 <= 3 * c.height as i64
}

/// Boxes of the digit components among `comps[0..k]`, in order.
pub open spec fn pic_boxes(comps: Seq<CompStat>, k: int) -> Seq<Rect>
    decreases k,
{
    if k <= 0 {
        Seq::empty()
    } else if pic_digit(comps[k - 1]) {
        pic_boxes(comps, k - 1).push(rect_of(comps[k - 1]))
    } else {
        pic_boxes(comps, k - 1)
    }
}

/// Index of the first box from `i` on lying right of `x`, or the length.
pub open spec fn first_right(s: Seq<Rect>, x: i32, i: int) -> int
    decreases s.len() - i,
{
    if i >= s.len() {
        s.len() as int
    } else if s[i].x > x {
        i
    } else {
        first_right(s, x, i + 1)
    }
}

/// Boxes ordered left to right; equal `x` keep their order.
pub open spec fn sort_rects(s: Seq<Rect>) -> Seq<Rect>
    decreases s.len(),
{
    if s.len() == 0 {
        s
    } else {
        let t = sort_rects(s.drop_last());
        t.insert(first_right(t, s.last().x, 0), s.last())
    }
}

/// Part `p` of `n` equal-width parts of `r`; the last one takes what is left.
pub open spec fn part(r: Rect, n: int, p: int) -> Rect {
    let pw = (r.width as int) / n;
    let rx = r.x + p * pw;
    let rw = if p == n - 1 { r.x + r.width - rx } else { pw };
    Rect { x: rx as i32, y: r.y, width: rw as i32, height: r.height }
}

/// The first `k` of `n` equal parts of `r`.
pub open spec fn equal_parts(r: Rect, n: int, k: int) -> Seq<Rect>
    decreases k,
{
    if k <= 0 { Seq::empty() } else { equal_parts(r, n, k - 1).push(part(r, n, k - 1)) }
}

/// A box wider than the split limit `lim[e]` of its expected digit width
/// `e` is cut into as many equal parts as digits it holds (at least two).
pub open spec fn pic_split(r: Rect, lim: Seq<i32>) -> Seq<Rect> {
    let e = expect_w(r.height as int);
    if r.width > lim[e] {
        let n = num_parts(r.width as int, e);
        equal_parts(r, n, n)
    } else {
        seq![r]
    }
}

pub open spec fn split_each(s: Seq<Rect>, lim: Seq<i32>, k: int) -> Seq<Rect>
    decreases k,
{
    if k <= 0 { Seq::empty() } else { split_each(s, lim, k - 1) + pic_split(s[k - 1], lim) }
}

/// The digit boxes of a cleaned mask with components `comps`.
pub open spec fn pic_digits_spec(comps: Seq<CompStat>, lim: Seq<i32>) -> Seq<Rect> {
    let s = sort_rects(pic_boxes(comps, comps.len() as int));
    split_each(s, lim, s.len() as int)
}

pub open spec fn sane(r: Rect) -> bool {
    0 <= r.x <= MAX_MASK && 0 <= r.width <= MAX_MASK && 0 <= r.height <= MAX_MASK
}

fn sort_rects_exec(v: &Vec<Rect>) -> (r: Vec<Rect>)
    ensures
        r@ == sort_rects(v@),
        forall|i: int| 0 <= i < r@.len() ==> exists|j: int| 0 <= j < v@.len() && #[trigger] r@[i] == v@[j],
{
    let mut out: Vec<Rect> = Vec::new();
    let mut i: usize = 0;
    proof {
        assert(v@.take(0) =~= Seq::<Rect>::empty());
    }
    while i < v.len()
        invariant
            i <= v.len(),
            out@ == sort_rects(v@.take(i as int)),
            forall|t: int| 0 <= t < out@.len() ==> exists|j: int| 0 <= j < v@.len() && #[trigger] out@[t] == v@[j],
        decreases v.len() - i,
    {
        let item = v[i];
        let mut pos: usize = 0;
        while pos < out.len() && out[pos].x <= item.x
            invariant
                pos <= out@.len(),
                first_right(out@, item.x, 0) == first_right(out@, item.x, pos as int),
            decreases out.len() - pos,
        {
            pos = pos + 1;
        }
        proof {
            assert(v@.take(i + 1).drop_last() =~= v@.take(i as int));
            assert(v@.take(i + 1).last() == item);
        }
        let ghost before = out@;
        out.insert(pos, item);
        proof {
            assert forall|t: int| 0 <= t < out@.len() implies exists|j: int| 0 <= j < v@.len() && #[trigger] out@[t] == v@[j] by {
                if t < pos {
                    assert(out@[t] == before[t]);
                } else if t == pos {
                    assert(out@[t] == v@[i as int]);
                } else {
                    assert(out@[t] == before[t - 1]);
                }
            }
        }
        i = i + 1;
    }
    proof {
        assert(v@.take(i as int) =~= v@);
    }
    out
}

/// The equal parts of `r` (see `equal_parts`).
fn equal_parts_exec(r: Rect, n: i64) -> (res: Vec<Rect>)
    requires
        sane(r),
        1 <= n <= MAX_MASK,
    ensures
        res@ == equal_parts(r, n as int, n as int),
{
    let pw = r.width as i64 / n;
    let mut out: Vec<Rect> = Vec::new();
    let mut p: i64 = 0;
    while p < n
        invariant
            sane(r),
            1 <= n <= MAX_MASK,
            pw == (r.width as int) / (n as int),
            0 <= p <= n,
            out@ == equal_parts(r, n as int, p as int),
        decreases n - p,
    {
        proof {
            assert(0 <= p * pw <= r.width) by (nonlinear_arith)
                requires
                    0 <= p < n,
                    pw == (r.width as int) / (n as int),
                    0 <= r.width;
        }
        let rx = r.x as i64 + p * pw;
        let rw = if p == n - 1 { r.x as i64 + r.width as i64 - rx } else { pw };
        proof {
            assert(0 <= pw <= r.width) by (nonlinear_arith)
                requires
                    n >= 1,
                    pw == (r.width as int) / (n as int),
                    0 <= r.width;
        }
        out.push(Rect { x: rx as i32, y: r.y, width: rw as i32, height: r.height });
        p = p + 1;
    }
    out
}

/// The digit boxes of the batch cleaner: the digit-shaped components (see
/// `pic_digit`) left to right, each too wide for one digit cut into equal
/// parts (see `pic_split`). `split_limits[e]` is the widest box of expected
/// digit width `e` left whole: the caller's split ratio applied to `e`.
pub fn extract_individual_digits(comps: &Vec<CompStat>, split_limits: &Vec<i32>) -> (r: Vec<Rect>)
    requires
        forall|i: int| 0 <= i < comps.len() ==> sane(rect_of(#[trigger] comps@[i])),
        forall|i: int| 0 <= i < comps.len() ==> (#[trigger] comps@[i]).height + 7 <= split_limits@.len(),
    ensures
        r@ == pic_digits_spec(comps@, split_limits@),
{
    let mut boxes: Vec<Rect> = Vec::new();
    let mut i: usize = 0;
    while i < comps.len()
        invariant
            forall|j: int| 0 <= j < comps.len() ==> sane(rect_of(#[trigger] comps@[j])),
            forall|j: int| 0 <= j < comps.len() ==> (#[trigger] comps@[j]).height + 7 <= split_limits@.len(),
            i <= comps.len(),
            boxes@ == pic_boxes(comps@, i as int),
            forall|t: int| 0 <= t < boxes@.len() ==> sane(#[trigger] boxes@[t]) && boxes@[t].height + 7 <= split_limits@.len(),
        decreases comps.len() - i,
    {
        let c = comps[i];
        if is_pic_digit(c) {
            proof {
                assert(sane(rect_of(comps@[i as int])));
                assert(comps@[i as int].height + 7 <= split_limits@.len());
            }
            boxes.push(Rect { x: c.x, y: c.y, width: c.width, height: c.height });
        }
        i = i + 1;
    }
    let sorted = sort_rects_exec(&boxes);
    proof {
        assert forall|t: int| 0 <= t < sorted@.len() implies sane(#[trigger] sorted@[t]) && sorted@[t].height + 7
            <= split_limits@.len() by {
            let j = choose|j: int| 0 <= j < boxes@.len() && sorted@[t] == boxes@[j];
            assert(sane(boxes@[j]));
        }
    }
    let mut out: Vec<Rect> = Vec::new();
    let mut k: usize = 0;
    while k < sorted.len()
        invariant
            forall|t: int| 0 <= t < sorted@.len() ==> sane(#[trigger] sorted@[t]) && sorted@[t].height + 7 <= split_limits@.len(),
            k <= sorted.len(),
            out@ == split_each(sorted@, split_limits@, k as int),
        decreases sorted.len() - k,
    {
        let r = sorted[k];
        proof {
            assert(sane(sorted@[k as int]));
        }
        let hh = r.height as i64;
        let e0 = (62 * hh + 50) / 100;
        let e = if e0 >= 6 { e0 } else { 6 };
        let ww = r.width as i64;
        proof {
            assert(e0 <= hh + 1) by (nonlinear_arith)
                requires
                    e0 == (62 * hh + 50) / 100,
                    hh >= 0;
            assert(e <= hh + 6);
        }
        let limit = split_limits[e as usize];
        if r.width > limit {
            let q = (2 * ww + e) / (2 * e);
            let n = if q >= 2 { q } else { 2 };
            proof {
                assert(q <= MAX_MASK) by (nonlinear_arith)
                    requires
                        q == (2 * ww + e) / (2 * e),
                        e >= 6,
                        0 <= ww <= MAX_MASK;
            }
            let parts = equal_parts_exec(r, n);
            let mut ps = parts;
            let ghost before = out@;
            out.append(&mut ps);
            proof {
                assert(out@ == before + equal_parts(r, n as int, n as int));
            }
        } else {
            proof {
                assert(out@.push(r) =~= out@ + seq![r]);
            }
            out.push(r);
        }
        k = k + 1;
    }
    out
}

proof fn lemma_equal_parts_index(r: Rect, n: int, k: int, i: int)
    requires
        0 <= i < k,
    ensures
        equal_parts(r, n, k).len() == k,
        equal_parts(r, n, k)[i] == part(r, n, i),
    decreases k,
{
    if k > 1 {
        if i < k - 1 {
            lemma_equal_parts_index(r, n, k - 1, i);
        } else {
            lemma_equal_parts_index(r, n, k - 1, 0);
        }
    } else {
        assert(equal_parts(r, n, 0).len() == 0);
    }
}

proof fn lemma_part(r: Rect, n: int, i: int)
    requires
        sane(r),
        1 <= n,
        0 <= i < n,
    ensures
        0 <= i * ((r.width as int) / n) <= r.width,
        part(r, n, i).x == r.x + i * ((r.width as int) / n),
        part(r, n, i).width == (if i == n - 1 { r.width - i * ((r.width as int) / n) } else { (r.width as int) / n }),
        part(r, n, i).width >= 0,
        part(r, n, i).y == r.y,
        part(r, n, i).height == r.height,
{
    let pw = (r.width as int) / n;
    assert(0 <= i * pw <= r.width && 0 <= pw <= r.width) by (nonlinear_arith)
        requires
            0 <= i < n,
            pw == (r.width as int) / n,
            0 <= r.width;
}

/// The equal parts of a box tile it: the first starts at its left side,
/// each starts where the one before ends, the last ends at its right side,
/// and all have its top and height.
pub proof fn lemma_parts_tile(r: Rect, n: int)
    requires
        sane(r),
        1 <= n,
    ensures
        equal_parts(r, n, n).len() == n,
        equal_parts(r, n, n)[0].x == r.x,
        forall|i: int| 0 <= i < n - 1 ==> #[trigger] equal_parts(r, n, n)[i + 1].x == equal_parts(r, n, n)[i].x + equal_parts(r, n, n)[i].width,
        equal_parts(r, n, n)[n - 1].x + equal_parts(r, n, n)[n - 1].width == r.x + r.width,
        forall|i: int| 0 <= i < n ==> (#[trigger] equal_parts(r, n, n)[i]).y == r.y && equal_parts(r, n, n)[i].height == r.height && equal_parts(r, n, n)[i].width >= 0,
{
    let pw = (r.width as int) / n;
    assert forall|i: int| 0 <= i < n implies (#[trigger] equal_parts(r, n, n)[i]) == part(r, n, i) by {
        lemma_equal_parts_index(r, n, n, i);
    }
    lemma_equal_parts_index(r, n, n, 0);
    lemma_part(r, n, 0);
    lemma_part(r, n, n - 1);
    assert forall|i: int| 0 <= i < n - 1 implies #[trigger] equal_parts(r, n, n)[i + 1].x == equal_parts(r, n, n)[i].x
        + equal_parts(r, n, n)[i].width by {
        lemma_part(r, n, i);
        lemma_part(r, n, i + 1);
        assert((i + 1) * pw == i * pw + pw) by (nonlinear_arith);
    }
    assert forall|i: int| 0 <= i < n implies (#[trigger] equal_parts(r, n, n)[i]).y == r.y && equal_parts(r, n, n)[i].height
        == r.height && equal_parts(r, n, n)[i].width >= 0 by {
        lemma_part(r, n, i);
    }
}

proof fn lemma_first_right(s: Seq<Rect>, x: i32, i: int)
    requires
        0 <= i <= s.len(),
    ensures
        i <= first_right(s, x, i) <= s.len(),
        forall|j: int| i <= j < first_right(s, x, i) ==> s[j].x <= x,
        first_right(s, x, i) < s.len() ==> s[first_right(s, x, i)].x > x,
    decreases s.len() - i,
{
    if i < s.len() && s[i].x <= x {
        lemma_first_right(s, x, i + 1);
    }
}

/// The ordered boxes go left to right.
pub proof fn lemma_sort_rects_sorted(s: Seq<Rect>)
    ensures
        sort_rects(s).len() == s.len(),
        forall|i: int, j: int| 0 <= i < j < s.len() ==> (#[trigger] sort_rects(s)[i]).x <= (#[trigger] sort_rects(s)[j]).x,
    decreases s.len(),
{
    if s.len() > 0 {
        let t = sort_rects(s.drop_last());
        lemma_sort_rects_sorted(s.drop_last());
        let x = s.last().x;
        lemma_first_right(t, x, 0);
        let pos = first_right(t, x, 0);
        let u = t.insert(pos, s.last());
        assert forall|i: int, j: int| 0 <= i < j < u.len() implies (#[trigger] u[i]).x <= (#[trigger] u[j]).x by {
            if j < pos {
            } else if j == pos {
                assert(u[i] == t[i]);
            } else if i < pos {
                assert(u[j] == t[j - 1]);
                assert(t[i].x <= t[j - 1].x);
            } else if i == pos {
                assert(u[j] == t[j - 1]);
                assert(t[pos].x <= t[j - 1].x);
            } else {
                assert(u[j] == t[j - 1] && u[i] == t[i - 1]);
            }
        }
    }
}

// ------------------------------------------------------------ glyph boxes

/// The boxes among `rects[0..k]` at least `min_w` wide and `min_h` high.
pub open spec fn big_enough(rects: Seq<Rect>, min_w: int, min_h: int, k: int) -> Seq<Rect>
    decreases k,
{
    if k <= 0 {
        Seq::empty()
    } else if rects[k - 1].width >= min_w && rects[k - 1].height >= min_h {
        big_enough(rects, min_w, min_h, k - 1).push(rects[k - 1])
    } else {
        big_enough(rects, min_w, min_h, k - 1)
    }
}

/// The character boxes handed one by one to the OCR engine: the outline
/// boxes at least `min_w` wide and `min_h` high, left to right (equal `x`
/// keep their order).
pub fn boxes_left_to_right(rects: &Vec<Rect>, min_w: i32, min_h: i32) -> (r: Vec<Rect>)
    ensures
        r@ == sort_rects(big_enough(rects@, min_w as int, min_h as int, rects.len() as int)),
{
    let mut kept: Vec<Rect> = Vec::new();
    let mut i: usize = 0;
    while i < rects.len()
        invariant
            i <= rects.len(),
            kept@ == big_enough(rects@, min_w as int, min_h as int, i as int),
        decreases rects.len() - i,
    {
        let b = rects[i];
        if b.width >= min_w && b.height >= min_h {
            kept.push(b);
        }
        i = i + 1;
    }
    sort_rects_exec(&kept)
}

// ------------------------------------------------------------ template choice

/// The smallest of the first `k` scores of `v`, starting from `i32::MAX`.
pub open spec fn var_min(v: Seq<i32>, k: int) -> int
    decreases k,
{
    if k <= 0 {
        i32::MAX as int
    } else {
        let m = var_min(v, k - 1);
        if (v[k - 1] as int) < m { v[k - 1] as int } else { m }
    }
}

/// The best score and class among the first `k` classes: a class with
/// variants replaces the best so far when its smallest variant score is
/// strictly lower; no class gives `i32::MAX` and -1.
pub open spec fn best_class(s: Seq<Seq<i32>>, k: int) -> (int, int)
    decreases k,
{
    if k <= 0 {
        (i32::MAX as int, -1)
    } else {
        let (b, d) = best_class(s, k - 1);
        if s[k - 1].len() == 0 {
            (b, d)
        } else {
            let m = var_min(s[k - 1], s[k - 1].len() as int);
            if m < b { (m, k - 1) } else { (b, d) }
        }
    }
}

proof fn lemma_var_min_bound(v: Seq<i32>, k: int)
    ensures
        i32::MIN <= var_min(v, k) <= i32::MAX,
    decreases k,
{
    if k > 0 {
        lemma_var_min_bound(v, k - 1);
    }
}

/// The choice is the first class of strictly lowest score: every class with
/// variants scores at least as much, every earlier one strictly more; -1
/// only when no class scores below `i32::MAX`.
proof fn lemma_best_class(s: Seq<Seq<i32>>, k: int)
    requires
        0 <= k <= s.len(),
    ensures
        ({
            let (b, d) = best_class(s, k);
            &&& -1 <= d < k
            &&& d == -1 <==> b == i32::MAX
            &&& d >= 0 ==> s[d].len() > 0 && b == var_min(s[d], s[d].len() as int)
            &&& forall|e: int| 0 <= e < k && s[e].len() > 0 ==> b <= #[trigger] var_min(s[e], s[e].len() as int)
            &&& forall|e: int| 0 <= e < d && s[e].len() > 0 ==> b < #[trigger] var_min(s[e], s[e].len() as int)
        }),
    decreases k,
{
    if k > 0 {
        lemma_best_class(s, k - 1);
        lemma_var_min_bound(s[k - 1], s[k - 1].len() as int);
    }
}

/// The digit read from a glyph: `scores[c]` holds the differing-pixel counts
/// of the glyph against each variant of class `c`; each class scores its
/// best variant, and the first class of strictly lowest score wins (-1 when
/// no class scores below `i32::MAX`).
pub fn best_template(scores: &Vec<Vec<i32>>) -> (r: i32)
    requires
        scores.len() <= i32::MAX,
    ensures
        r == best_class(scores@.map_values(|v: Vec<i32>| v@), scores.len() as int).1,
        -1 <= r < scores.len(),
        r >= 0 ==> scores@[r as int].len() > 0,
        forall|e: int|
            0 <= e < scores.len() && scores@[e].len() > 0 && r >= 0 ==> var_min(scores@[r as int]@, scores@[r as int].len() as int)
                <= #[trigger] var_min(scores@[e]@, scores@[e].len() as int),
        forall|e: int|
            0 <= e < r && scores@[e].len() > 0 ==> var_min(scores@[r as int]@, scores@[r as int].len() as int)
                < #[trigger] var_min(scores@[e]@, scores@[e].len() as int),
        r == -1 ==> forall|e: int| 0 <= e < scores.len() && scores@[e].len() > 0 ==> #[trigger] var_min(scores@[e]@, scores@[e].len() as int) == i32::MAX,
{
    let ghost gs = scores@.map_values(|v: Vec<i32>| v@);
    let mut best_score: i32 = i32::MAX;
    let mut best_digit: i32 = -1;
    let mut i: usize = 0;
    while i < scores.len()
        invariant
            scores.len() <= i32::MAX,
            gs == scores@.map_values(|v: Vec<i32>| v@),
            i <= scores.len(),
            (best_score as int, best_digit as int) == best_class(gs, i as int),
        decreases scores.len() - i,
    {
        let vars = &scores[i];
        proof {
            assert(gs[i as int] == vars@);
        }
        if vars.len() > 0 {
            let mut m: i32 = i32::MAX;
            let mut j: usize = 0;
            while j < vars.len()
                invariant
                    j <= vars.len(),
                    m as int == var_min(vars@, j as int),
                decreases vars.len() - j,
            {
                if vars[j] < m {
                    m = vars[j];
                }
                j = j + 1;
            }
            if m < best_score {
                best_score = m;
                best_digit = i as i32;
            }
        }
        i = i + 1;
    }
    proof {
        lemma_best_class(gs, scores.len() as int);
        let (b, d) = best_class(gs, scores.len() as int);
        assert forall|e: int| 0 <= e < scores.len() && scores@[e].len() > 0 implies b <= #[trigger] var_min(
            scores@[e]@,
            scores@[e].len() as int,
        ) && var_min(scores@[e]@, scores@[e].len() as int) <= i32::MAX by {
            assert(gs[e] == scores@[e]@);
            assert(b <= var_min(gs[e], gs[e].len() as int));
            lemma_var_min_bound(scores@[e]@, scores@[e].len() as int);
        }
        assert forall|e: int| 0 <= e < d && scores@[e].len() > 0 implies b < #[trigger] var_min(
            scores@[e]@,
            scores@[e].len() as int,
        ) by {
            assert(gs[e] == scores@[e]@);
            assert(b < var_min(gs[e], gs[e].len() as int));
        }
        if d >= 0 {
            assert(gs[d] == scores@[d]@);
        }
    }
    best_digit
}

} // verus!
