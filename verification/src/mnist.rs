use vstd::prelude::*;

verus! {

/// An 8-bit grayscale image, stored row by row.
pub struct GrayImg {
    pub width: usize,
    pub rows: Vec<Vec<u8>>,
}

impl GrayImg {
    pub open spec fn height(&self) -> int {
        self.rows@.len() as int
    }

    pub open spec fn at(&self, y: int, x: int) -> int {
        self.rows@[y]@[x] as int
    }

    /// Every row holds `width` pixels.
    pub open spec fn wf(&self) -> bool {
        forall|y: int| 0 <= y < self.height() ==> #[trigger] self.rows@[y]@.len() == self.width
    }

    /// The same size as `other` with pixel `(y, x)` given by `f`.
    pub open spec fn same_size(&self, other: &GrayImg) -> bool {
        &&& self.width == other.width
        &&& self.height() == other.height()
        &&& self.wf()
    }
}

// ------------------------------------------------------------ polarity

/// Sum of the top and bottom rows over columns `0..k`.
pub open spec fn top_bottom_sum(img: &GrayImg, k: int) -> int
    decreases k,
{
    if k <= 0 {
        0
    } else {
        top_bottom_sum(img, k - 1) + img.at(0, k - 1) + img.at(img.height() - 1, k - 1)
    }
}

/// Sum of the left and right columns over rows `0..k`.
pub open spec fn left_right_sum(img: &GrayImg, k: int) -> int
    decreases k,
{
    if k <= 0 {
        0
    } else {
        left_right_sum(img, k - 1) + img.at(k - 1, 0) + img.at(k - 1, img.width - 1)
    }
}

/// Sum of the outermost ring of pixels, each side counted in full (the
/// corners twice).
pub open spec fn border_sum(img: &GrayImg) -> int {
    top_bottom_sum(img, img.width as int) + left_right_sum(img, img.height())
}

/// Number of pixels that `border_sum` adds up.
pub open spec fn border_count(img: &GrayImg) -> int {
    2 * img.width + 2 * img.height()
}

/// The power of two, from `p` on, that brings `x` below 2^24: the scale of
/// the last place of `x` in single precision.
pub open spec fn f32_scale(x: int, p: int) -> int
    decreases x - p,
{
    if p < 1 || x / p < 0x100_0000 {
        p
    } else {
        proof {
            assert(x >= 2 * p) by (nonlinear_arith)
                requires
                    p >= 1,
                    x / p >= 0x100_0000;
        }
        f32_scale(x, 2 * p)
    }
}

/// A non-negative integer converted to single precision: rounded to 24
/// significant bits, to nearest with ties to even.
pub open spec fn f32_round(x: int) -> int {
    let p = f32_scale(x, 1);
    let q = x / p;
    let r = x % p;
    if 2 * r > p || (2 * r == p && q % 2 == 1) { (q + 1) * p } else { q * p }
}

/// The mean `sum / count`, computed in single precision (both converted,
/// then divided), is above 127. The next single above 127 is `127 + 2^-17`,
/// so the rounded quotient exceeds 127 exactly when the true quotient of
/// the converted values exceeds the midpoint `127 + 2^-18` (a tie rounds
/// to 127, whose last bit is even).
pub open spec fn bright_mean(sum: int, count: int) -> bool {
    f32_round(sum) * 0x40000 > (127 * 0x40000 + 1) * f32_round(count)
}

/// The border is bright: its mean, as single precision computes it, is
/// above 127.
pub open spec fn bright_border(img: &GrayImg) -> bool {
    img.width > 0 && img.height() > 0 && bright_mean(border_sum(img), border_count(img))
}

/// `f32_round` of `x`.
fn f32_round_exec(x: u64) -> (r: u64)
    requires
        x <= 0x1_0000_0000_0000,
    ensures
        r == f32_round(x as int),
        r <= 2 * x + 1,
{
    let mut p: u64 = 1;
    while x / p >= 0x100_0000
        invariant
            1 <= p <= x + 1,
            x <= 0x1_0000_0000_0000,
            f32_scale(x as int, p as int) == f32_scale(x as int, 1),
        decreases x + 1 - p,
    {
        proof {
            assert(x >= 2 * p) by (nonlinear_arith)
                requires
                    p >= 1,
                    x / p >= 0x100_0000;
        }
        p = p * 2;
    }
    let q = x / p;
    let r = x % p;
    proof {
        assert(q * p <= x) by (nonlinear_arith)
            requires
                p >= 1,
                q == x / p;
        assert((q + 1) * p == q * p + p) by (nonlinear_arith);
    }
    if 2 * r > p || (2 * r == p && q % 2 == 1) {
        (q + 1) * p
    } else {
        q * p
    }
}

/// `out` is `img` with every pixel inverted when `inv` holds, else a copy.
pub open spec fn mapped(out: &GrayImg, img: &GrayImg, inv: bool) -> bool {
    &&& out.same_size(img)
    &&& forall|y: int, x: int|
        0 <= y < img.height() && 0 <= x < img.width ==> #[trigger] out.at(y, x) == (if inv {
            255 - img.at(y, x)
        } else {
            img.at(y, x)
        })
}

/// Copy of `img`, inverted when `inv` holds.
fn map_image(img: &GrayImg, inv: bool) -> (r: GrayImg)
    requires
        img.wf(),
    ensures
        mapped(&r, img, inv),
{
    let mut rows: Vec<Vec<u8>> = Vec::new();
    let mut y: usize = 0;
    while y < img.rows.len()
        invariant
            img.wf(),
            y <= img.rows.len(),
            rows@.len() == y,
            forall|yy: int| 0 <= yy < y ==> #[trigger] rows@[yy]@.len() == img.width,
            forall|yy: int, x: int|
                0 <= yy < y && 0 <= x < img.width ==> #[trigger] rows@[yy]@[x] as int == (if inv {
                    255 - img.at(yy, x)
                } else {
                    img.at(yy, x)
                }),
        decreases img.rows.len() - y,
    {
        let src = &img.rows[y];
        let mut row: Vec<u8> = Vec::new();
        let mut x: usize = 0;
        while x < src.len()
            invariant
                x <= src.len(),
                row@.len() == x,
                forall|i: int| 0 <= i < x ==> #[trigger] row@[i] as int == (if inv {
                    255 - src@[i]
                } else {
                    src@[i] as int
                }),
            decreases src.len() - x,
        {
            let v = src[x];
            row.push(if inv { 255 - v } else { v });
            x = x + 1;
        }
        rows.push(row);
        y = y + 1;
    }
    GrayImg { width: img.width, rows }
}

/// Makes the digit white on black, as MNIST has it: when the mean of the
/// outermost ring of pixels, taken in single precision (see `bright_mean`),
/// is above 127 the background is taken to be white and the image is
/// inverted; otherwise it is returned unchanged.
pub fn ensure_white_on_black(img: &GrayImg) -> (r: GrayImg)
    requires
        img.wf(),
        img.width <= u32::MAX,
        img.height() <= u32::MAX,
    ensures
        mapped(&r, img, bright_border(img)),
{
    let w = img.width;
    let h = img.rows.len();
    if w == 0 || h == 0 {
        return map_image(img, false);
    }
    let mut sum: u64 = 0;
    let mut n: u64 = 0;
    let mut x: usize = 0;
    while x < w
        invariant
            img.wf(),
            w == img.width,
            h == img.height(),
            0 < w <= u32::MAX,
            0 < h <= u32::MAX,
            x <= w,
            sum == top_bottom_sum(img, x as int),
            sum <= 510 * x,
            n == 2 * x,
        decreases w - x,
    {
        sum = sum + img.rows[0][x] as u64 + img.rows[h - 1][x] as u64;
        n = n + 2;
        x = x + 1;
    }
    let mut y: usize = 0;
    while y < h
        invariant
            img.wf(),
            w == img.width,
            h == img.height(),
            0 < w <= u32::MAX,
            0 < h <= u32::MAX,
            y <= h,
            sum == top_bottom_sum(img, w as int) + left_right_sum(img, y as int),
            sum <= 510 * w + 510 * y,
            n == 2 * w + 2 * y,
        decreases h - y,
    {
        sum = sum + img.rows[y][0] as u64 + img.rows[y][w - 1] as u64;
        n = n + 2;
        y = y + 1;
    }
    let fs = f32_round_exec(sum) as u128;
    let fc = f32_round_exec(n) as u128;
    assert(fc <= 0x10_0000_0000);
    map_image(img, fs * 0x40000 > 33292289 * fc)
}

// ------------------------------------------------------------ dilation

/// Pixel `(y, x)`, or 0 outside the image.
pub open spec fn at_or0(img: &GrayImg, y: int, x: int) -> int {
    if 0 <= y < img.height() && 0 <= x < img.width { img.at(y, x) } else { 0 }
}

pub open spec fn max3(a: int, b: int, c: int) -> int {
    let m = if a >= b { a } else { b };
    if m >= c { m } else { c }
}

/// Largest pixel in the 3x3 neighbourhood of `(y, x)` that lies in the image.
pub open spec fn nbr_max(img: &GrayImg, y: int, x: int) -> int {
    max3(
        max3(at_or0(img, y - 1, x - 1), at_or0(img, y - 1, x), at_or0(img, y - 1, x + 1)),
        max3(at_or0(img, y, x - 1), at_or0(img, y, x), at_or0(img, y, x + 1)),
        max3(at_or0(img, y + 1, x - 1), at_or0(img, y + 1, x), at_or0(img, y + 1, x + 1)),
    )
}

/// `out` is one 3x3 maximum filter pass over `img`.
pub open spec fn dilated_once(out: &GrayImg, img: &GrayImg) -> bool {
    &&& out.same_size(img)
    &&& forall|y: int, x: int|
        0 <= y < img.height() && 0 <= x < img.width ==> #[trigger] out.at(y, x) == nbr_max(img, y, x)
}

fn dilate_once(img: &GrayImg) -> (r: GrayImg)
    requires
        img.wf(),
    ensures
        dilated_once(&r, img),
{
    let w = img.width;
    let h = img.rows.len();
    let mut rows: Vec<Vec<u8>> = Vec::new();
    let mut y: usize = 0;
    while y < h
        invariant
            img.wf(),
            w == img.width,
            h == img.height(),
            y <= h,
            rows@.len() == y,
            forall|yy: int| 0 <= yy < y ==> #[trigger] rows@[yy]@.len() == w,
            forall|yy: int, x: int|
                0 <= yy < y && 0 <= x < w ==> #[trigger] rows@[yy]@[x] as int == nbr_max(img, yy, x),
        decreases h - y,
    {
        let mut row: Vec<u8> = Vec::new();
        let mut x: usize = 0;
        while x < w
            invariant
                img.wf(),
                w == img.width,
                h == img.height(),
                y < h,
                x <= w,
                row@.len() == x,
                forall|i: int| 0 <= i < x ==> #[trigger] row@[i] as int == nbr_max(img, y as int, i),
            decreases w - x,
        {
            let mut best: u8 = 0;
            let mut dy: usize = 0;
            while dy < 3
                invariant
                    img.wf(),
                    w == img.width,
                    h == img.height(),
                    y < h,
                    x < w,
                    dy <= 3,
                    best as int == (if dy == 0 {
                        0
                    } else if dy == 1 {
                        max3(at_or0(img, y - 1, x - 1), at_or0(img, y - 1, x as int), at_or0(img, y - 1, x + 1))
                    } else if dy == 2 {
                        let a = max3(at_or0(img, y - 1, x - 1), at_or0(img, y - 1, x as int), at_or0(img, y - 1, x + 1));
                        let b = max3(at_or0(img, y as int, x - 1), at_or0(img, y as int, x as int), at_or0(img, y as int, x + 1));
                        if a >= b { a } else { b }
                    } else {
                        nbr_max(img, y as int, x as int)
                    }),
                decreases 3 - dy,
            {
                let ghost before = best as int;
                let mut line: u8 = 0;
                let mut dx: usize = 0;
                while dx < 3
                    invariant
                        img.wf(),
                        w == img.width,
                        h == img.height(),
                        y < h,
                        x < w,
                        dy < 3,
                        dx <= 3,
                        line as int == (if dx == 0 {
                            0
                        } else if dx == 1 {
                            at_or0(img, y + dy - 1, x - 1)
                        } else if dx == 2 {
                            let a = at_or0(img, y + dy - 1, x - 1);
                            let b = at_or0(img, y + dy - 1, x as int);
                            if a >= b { a } else { b }
                        } else {
                            max3(at_or0(img, y + dy - 1, x - 1), at_or0(img, y + dy - 1, x as int), at_or0(img, y + dy - 1, x + 1))
                        }),
                    decreases 3 - dx,
                {
                    let y_ok = if dy == 0 { y >= 1 } else if dy == 1 { true } else { y + 1 < h };
                    let x_ok = if dx == 0 { x >= 1 } else if dx == 1 { true } else { x + 1 < w };
                    let v: u8 = if y_ok && x_ok { img.rows[y + dy - 1][x + dx - 1] } else { 0 };
                    if v > line {
                        line = v;
                    }
                    dx = dx + 1;
                }
                if line > best {
                    best = line;
                }
                dy = dy + 1;
            }
            row.push(best);
            x = x + 1;
        }
        rows.push(row);
        y = y + 1;
    }
    GrayImg { width: w, rows }
}

/// The image after `t` dilation passes.
pub open spec fn dilated(out: &GrayImg, img: &GrayImg, t: nat) -> bool
    decreases t,
{
    if t == 0 {
        mapped(out, img, false)
    } else {
        exists|mid: GrayImg| dilated(&mid, img, (t - 1) as nat) && #[trigger] dilated_once(out, &mid)
    }
}

/// Morphological dilation, repeated `times` times: each pass replaces every
/// pixel with the largest pixel of its 3x3 neighbourhood (clipped to the
/// image), which thickens strokes and closes small breaks.
pub fn dilate(img: &GrayImg, times: u32) -> (r: GrayImg)
    requires
        img.wf(),
    ensures
        dilated(&r, img, times as nat),
{
    let mut cur = map_image(img, false);
    let mut t: u32 = 0;
    while t < times
        invariant
            img.wf(),
            t <= times,
            cur.wf(),
            dilated(&cur, img, t as nat),
        decreases times - t,
    {
        let next = dilate_once(&cur);
        proof {
            assert(dilated(&next, img, (t + 1) as nat)) by {
                assert(dilated(&cur, img, t as nat) && dilated_once(&next, &cur));
            }
        }
        cur = next;
        t = t + 1;
    }
    cur
}

// ------------------------------------------------------------ laws

proof fn lemma_mapped_top_bottom(a: &GrayImg, img: &GrayImg, inv: bool, k: int)
    requires
        mapped(a, img, inv),
        img.height() > 0,
        0 <= k <= img.width,
    ensures
        top_bottom_sum(a, k) == (if inv { 510 * k - top_bottom_sum(img, k) } else { top_bottom_sum(img, k) }),
    decreases k,
{
    if k > 0 {
        lemma_mapped_top_bottom(a, img, inv, k - 1);
        assert(a.at(0, k - 1) == (if inv { 255 - img.at(0, k - 1) } else { img.at(0, k - 1) }));
        assert(a.at(img.height() - 1, k - 1) == (if inv {
            255 - img.at(img.height() - 1, k - 1)
        } else {
            img.at(img.height() - 1, k - 1)
        }));
    }
}

proof fn lemma_mapped_left_right(a: &GrayImg, img: &GrayImg, inv: bool, k: int)
    requires
        mapped(a, img, inv),
        img.width > 0,
        0 <= k <= img.height(),
    ensures
        left_right_sum(a, k) == (if inv { 510 * k - left_right_sum(img, k) } else { left_right_sum(img, k) }),
    decreases k,
{
    if k > 0 {
        lemma_mapped_left_right(a, img, inv, k - 1);
        assert(a.at(k - 1, 0) == (if inv { 255 - img.at(k - 1, 0) } else { img.at(k - 1, 0) }));
        assert(a.at(k - 1, img.width - 1) == (if inv {
            255 - img.at(k - 1, img.width - 1)
        } else {
            img.at(k - 1, img.width - 1)
        }));
    }
}

/// Below 2^24 the conversion to single precision is exact.
proof fn lemma_f32_round_small(x: int)
    requires
        0 <= x < 0x100_0000,
    ensures
        f32_round(x) == x,
{
    assert(f32_scale(x, 1) == 1);
}

/// On borders of fewer than 65536 pixels single precision makes no
/// difference: the border counts as bright exactly when its mean is above
/// 127.
pub proof fn lemma_bright_mean_exact(sum: int, count: int)
    requires
        0 <= sum <= 255 * count,
        1 <= count < 0x1_0000,
    ensures
        bright_mean(sum, count) == (sum > 127 * count),
{
    assert(sum < 0x100_0000);
    lemma_f32_round_small(sum);
    lemma_f32_round_small(count);
    assert(sum * 0x40000 > (127 * 0x40000 + 1) * count <==> sum > 127 * count) by (nonlinear_arith)
        requires
            1 <= count < 0x1_0000,
            0 <= sum;
}

/// Inverting an image turns its border sum `s` into `255 * count - s`.
pub proof fn lemma_invert_border_sum(a: &GrayImg, img: &GrayImg)
    requires
        mapped(a, img, true),
        img.width > 0,
        img.height() > 0,
    ensures
        border_sum(a) == 255 * border_count(img) - border_sum(img),
{
    lemma_mapped_top_bottom(a, img, true, img.width as int);
    lemma_mapped_left_right(a, img, true, img.height());
}

/// Inverting twice gives back the same pixels.
pub proof fn lemma_invert_involution(a: &GrayImg, b: &GrayImg, img: &GrayImg)
    requires
        mapped(a, img, true),
        mapped(b, a, true),
    ensures
        mapped(b, img, false),
{
}

/// Applying the polarity fix twice changes nothing more, unless the border
/// is bright both as it is and inverted (its mean then lies within rounding
/// of the interval from 127 to 128, and the second call inverts back).
pub proof fn lemma_ensure_white_on_black_idempotent(a: &GrayImg, b: &GrayImg, img: &GrayImg)
    requires
        img.wf(),
        mapped(a, img, bright_border(img)),
        mapped(b, a, bright_border(a)),
        !(bright_mean(border_sum(img), border_count(img)) && bright_mean(
            255 * border_count(img) - border_sum(img),
            border_count(img),
        )),
    ensures
        mapped(b, a, false),
{
    if img.width > 0 && img.height() > 0 {
        if bright_border(img) {
            lemma_invert_border_sum(a, img);
        } else {
            lemma_mapped_top_bottom(a, img, false, img.width as int);
            lemma_mapped_left_right(a, img, false, img.height());
        }
    }
}

/// Dilation never darkens a pixel: each pass only raises pixels to the
/// brightest of their neighbourhood.
pub proof fn lemma_dilate_extensive(out: &GrayImg, img: &GrayImg, t: nat)
    requires
        img.wf(),
        dilated(out, img, t),
    ensures
        out.same_size(img),
        forall|y: int, x: int| 0 <= y < img.height() && 0 <= x < img.width ==> #[trigger] out.at(y, x) >= img.at(y, x),
    decreases t,
{
    if t > 0 {
        let mid = choose|mid: GrayImg| dilated(&mid, img, (t - 1) as nat) && #[trigger] dilated_once(out, &mid);
        lemma_dilate_extensive(&mid, img, (t - 1) as nat);
        assert forall|y: int, x: int| 0 <= y < img.height() && 0 <= x < img.width implies #[trigger] out.at(y, x) >= img.at(y, x) by {
            assert(out.at(y, x) == nbr_max(&mid, y, x));
            assert(nbr_max(&mid, y, x) >= at_or0(&mid, y, x));
        }
    }
}

/// A result of `t` passes stays one when its pixels are copied.
proof fn lemma_dilated_copy(r: &GrayImg, m: &GrayImg, img: &GrayImg, t: nat)
    requires
        dilated(m, img, t),
        mapped(r, m, false),
    ensures
        dilated(r, img, t),
{
    if t > 0 {
        let mid = choose|mid: GrayImg| dilated(&mid, img, (t - 1) as nat) && #[trigger] dilated_once(m, &mid);
        assert(dilated_once(r, &mid));
    }
}

/// Dilation passes compose: `a + b` passes over `img` give exactly what `b`
/// passes give over the result of `a` passes.
pub proof fn lemma_dilate_compose(r: &GrayImg, img: &GrayImg, a: nat, b: nat)
    requires
        img.wf(),
    ensures
        dilated(r, img, a + b) <==> exists|mid: GrayImg| #[trigger] dilated(&mid, img, a) && dilated(r, &mid, b),
    decreases b,
{
    if b == 0 {
        if dilated(r, img, a) {
            lemma_dilate_extensive(r, img, a);
            assert(dilated(r, img, a) && dilated(r, r, 0));
        }
        if exists|mid: GrayImg| #[trigger] dilated(&mid, img, a) && dilated(r, &mid, b) {
            let mid = choose|mid: GrayImg| #[trigger] dilated(&mid, img, a) && dilated(r, &mid, b);
            lemma_dilated_copy(r, &mid, img, a);
        }
    } else {
        let t = (a + b - 1) as nat;
        assert(t == a + (b - 1) as nat);
        if dilated(r, img, a + b) {
            let m0 = choose|m0: GrayImg| dilated(&m0, img, t) && #[trigger] dilated_once(r, &m0);
            lemma_dilate_compose(&m0, img, a, (b - 1) as nat);
            let mid = choose|mid: GrayImg| #[trigger] dilated(&mid, img, a) && dilated(&m0, &mid, (b - 1) as nat);
            assert(dilated(&m0, &mid, (b - 1) as nat) && dilated_once(r, &m0));
            assert(dilated(r, &mid, b));
        }
        if exists|mid: GrayImg| #[trigger] dilated(&mid, img, a) && dilated(r, &mid, b) {
            let mid = choose|mid: GrayImg| #[trigger] dilated(&mid, img, a) && dilated(r, &mid, b);
            let m0 = choose|m0: GrayImg| dilated(&m0, &mid, (b - 1) as nat) && #[trigger] dilated_once(r, &m0);
            lemma_dilate_compose(&m0, img, a, (b - 1) as nat);
            assert(dilated(&mid, img, a) && dilated(&m0, &mid, (b - 1) as nat));
            assert(dilated(&m0, img, t));
            assert(dilated(r, img, a + b));
        }
    }
}

/// Dilation is determined by its input: two results of the same number of
/// passes agree on every pixel.
pub proof fn lemma_dilate_deterministic(a: &GrayImg, b: &GrayImg, img: &GrayImg, t: nat)
    requires
        img.wf(),
        dilated(a, img, t),
        dilated(b, img, t),
    ensures
        a.same_size(img),
        b.same_size(img),
        forall|y: int, x: int| 0 <= y < img.height() && 0 <= x < img.width ==> #[trigger] a.at(y, x) == b.at(y, x),
    decreases t,
{
    if t > 0 {
        let ma = choose|mid: GrayImg| dilated(&mid, img, (t - 1) as nat) && #[trigger] dilated_once(a, &mid);
        let mb = choose|mid: GrayImg| dilated(&mid, img, (t - 1) as nat) && #[trigger] dilated_once(b, &mid);
        lemma_dilate_deterministic(&ma, &mb, img, (t - 1) as nat);
        assert forall|y: int, x: int| 0 <= y < img.height() && 0 <= x < img.width implies #[trigger] a.at(y, x) == b.at(y, x) by {
            assert(a.at(y, x) == nbr_max(&ma, y, x));
            assert(b.at(y, x) == nbr_max(&mb, y, x));
            assert(at_or0(&ma, y - 1, x - 1) == at_or0(&mb, y - 1, x - 1));
            assert(at_or0(&ma, y - 1, x) == at_or0(&mb, y - 1, x));
            assert(at_or0(&ma, y - 1, x + 1) == at_or0(&mb, y - 1, x + 1));
            assert(at_or0(&ma, y, x - 1) == at_or0(&mb, y, x - 1));
            assert(at_or0(&ma, y, x) == at_or0(&mb, y, x));
            assert(at_or0(&ma, y, x + 1) == at_or0(&mb, y, x + 1));
            assert(at_or0(&ma, y + 1, x - 1) == at_or0(&mb, y + 1, x - 1));
            assert(at_or0(&ma, y + 1, x) == at_or0(&mb, y + 1, x));
            assert(at_or0(&ma, y + 1, x + 1) == at_or0(&mb, y + 1, x + 1));
        }
    }
}

// ------------------------------------------------------------ bounding box

/// `(x0, y0, x1, y1)` is the tight box around the pixels brighter than `t`.
pub open spec fn is_fg_box(img: &GrayImg, t: int, b: (usize, usize, usize, usize)) -> bool {
    let (x0, y0, x1, y1) = b;
    &&& x0 <= x1 < img.width
    &&& y0 <= y1 < img.height()
    &&& forall|y: int, x: int|
        0 <= y < img.height() && 0 <= x < img.width && #[trigger] img.at(y, x) > t ==> x0 <= x <= x1 && y0 <= y <= y1
    &&& exists|y: int| 0 <= y < img.height() && #[trigger] img.at(y, x0 as int) > t
    &&& exists|y: int| 0 <= y < img.height() && #[trigger] img.at(y, x1 as int) > t
    &&& exists|x: int| 0 <= x < img.width && #[trigger] img.at(y0 as int, x) > t
    &&& exists|x: int| 0 <= x < img.width && #[trigger] img.at(y1 as int, x) > t
}

/// Bounding box of the foreground: of the pixels brighter than `thresh`;
/// `None` when there is none.
pub fn foreground_bbox(img: &GrayImg, thresh: u8) -> (r: Option<(usize, usize, usize, usize)>)
    requires
        img.wf(),
    ensures
        r is None <==> (forall|y: int, x: int|
            0 <= y < img.height() && 0 <= x < img.width ==> !(#[trigger] img.at(y, x) > thresh)),
        r matches Some(b) ==> is_fg_box(img, thresh as int, b),
{
    let w = img.width;
    let h = img.rows.len();
    let mut found = false;
    let mut x0: usize = 0;
    let mut y0: usize = 0;
    let mut x1: usize = 0;
    let mut y1: usize = 0;
    let ghost mut wy0: int = 0;
    let ghost mut wy1: int = 0;
    let ghost mut wx0: int = 0;
    let ghost mut wx1: int = 0;
    let mut y: usize = 0;
    while y < h
        invariant
            img.wf(),
            w == img.width,
            h == img.height(),
            y <= h,
            !found ==> forall|yy: int, xx: int|
                0 <= yy < y && 0 <= xx < w ==> !(#[trigger] img.at(yy, xx) > thresh),
            found ==> {
                &&& x0 <= x1 < w
                &&& y0 <= y1 < y
                &&& forall|yy: int, xx: int|
                    0 <= yy < y && 0 <= xx < w && #[trigger] img.at(yy, xx) > thresh ==> x0 <= xx <= x1 && y0 <= yy <= y1
                &&& 0 <= wy0 < h && img.at(wy0, x0 as int) > thresh
                &&& 0 <= wy1 < h && img.at(wy1, x1 as int) > thresh
                &&& 0 <= wx0 < w && img.at(y0 as int, wx0) > thresh
                &&& 0 <= wx1 < w && img.at(y1 as int, wx1) > thresh
            },
        decreases h - y,
    {
        let row = &img.rows[y];
        let mut x: usize = 0;
        while x < w
            invariant
                img.wf(),
                w == img.width,
                h == img.height(),
                y < h,
                x <= w,
                row@ == img.rows@[y as int]@,
                !found ==> forall|yy: int, xx: int|
                    (0 <= yy < y && 0 <= xx < w) || (yy == y && 0 <= xx < x) ==> !(#[trigger] img.at(yy, xx) > thresh),
                found ==> {
                    &&& x0 <= x1 < w
                    &&& y0 <= y1 <= y
                    &&& forall|yy: int, xx: int|
                        ((0 <= yy < y && 0 <= xx < w) || (yy == y && 0 <= xx < x)) && #[trigger] img.at(yy, xx) > thresh ==> x0 <= xx <= x1 && y0 <= yy <= y1
                    &&& 0 <= wy0 < h && img.at(wy0, x0 as int) > thresh
                    &&& 0 <= wy1 < h && img.at(wy1, x1 as int) > thresh
                    &&& 0 <= wx0 < w && img.at(y0 as int, wx0) > thresh
                    &&& 0 <= wx1 < w && img.at(y1 as int, wx1) > thresh
                    &&& (y1 == y ==> exists|xx: int| 0 <= xx < x && img.at(y as int, xx) > thresh)
                    &&& (y1 < y || x > 0)
                },
            decreases w - x,
        {
            if row[x] > thresh {
                if !found {
                    found = true;
                    x0 = x;
                    x1 = x;
                    y0 = y;
                    y1 = y;
                    proof {
                        wy0 = y as int;
                        wy1 = y as int;
                        wx0 = x as int;
                        wx1 = x as int;
                    }
                } else {
                    if x < x0 {
                        x0 = x;
                        proof {
                            wy0 = y as int;
                        }
                    }
                    if x > x1 {
                        x1 = x;
                        proof {
                            wy1 = y as int;
                        }
                    }
                    if y < y0 {
                        y0 = y;
                        proof {
                            wx0 = x as int;
                        }
                    }
                    if y > y1 {
                        y1 = y;
                        proof {
                            wx1 = x as int;
                        }
                    }
                }
            }
            x = x + 1;
        }
        y = y + 1;
    }
    if found {
        proof {
            assert(img.at(wy0, x0 as int) > thresh);
            assert(img.at(wy1, x1 as int) > thresh);
            assert(img.at(y0 as int, wx0) > thresh);
            assert(img.at(y1 as int, wx1) > thresh);
            assert(is_fg_box(img, thresh as int, (x0, y0, x1, y1)));
        }
        Some((x0, y0, x1, y1))
    } else {
        None
    }
}

} // verus!
