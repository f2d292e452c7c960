use vstd::prelude::*;
use vstd::arithmetic::power2::{lemma_pow2_pos, lemma_pow2_unfold, pow2};
use vstd::arithmetic::div_mod::lemma_fundamental_div_mod;

verus! {

// Positive binary64 values as the frame search computes them, held as a
// pair `(m, k)` that stands for `m / 2^k`: after rounding, the mantissa `m`
// has 53 significant bits (2^52 <= m < 2^53) and the scale `k` is at least
// 1, which every value below 2^52 that these computations meet satisfies.
// A zero is `(0, 0)`.

/// 2^52, the smallest 53-bit mantissa.
pub open spec fn lo53() -> int {
    0x10_0000_0000_0000
}

/// 2^53, one past the largest 53-bit mantissa.
pub open spec fn hi53() -> int {
    0x20_0000_0000_0000
}

/// `a / b` rounded to the nearest integer, ties to even (`a >= 0`, `b >= 1`).
pub open spec fn rne(a: int, b: int) -> int {
    let q = a / b;
    let r = a % b;
    if 2 * r > b || (2 * r == b && q % 2 == 1) { q + 1 } else { q }
}

/// The least scale `k`, from `k` on, at which `s * 2^k` reaches `2^52 * d`:
/// the scale of the mantissa of `s / d`.
pub open spec fn up_k(s: int, d: int, k: nat) -> nat
    decreases 2 * (lo53() * d) - s * pow2(k),
{
    if s < 1 || d < 1 || s * pow2(k) >= lo53() * d {
        k
    } else {
        proof {
            lemma_up_step(s, k);
            assert(2 * (lo53() * d) - s * pow2(k + 1) < 2 * (lo53() * d) - s * pow2(k));
            assert(2 * (lo53() * d) - s * pow2(k + 1) >= 0);
        }
        up_k(s, d, k + 1)
    }
}

/// One doubling step of the scale search.
pub proof fn lemma_up_step(s: int, k: nat)
    requires
        s >= 1,
    ensures
        s * pow2(k + 1) == 2 * (s * pow2(k)),
        s * pow2(k) >= 1,
{
    lemma_pow2_unfold(k + 1);
    lemma_pow2_pos(k);
    assert(s * pow2(k + 1) == 2 * (s * pow2(k))) by (nonlinear_arith)
        requires
            pow2(k + 1) == 2 * pow2(k);
    assert(s * pow2(k) >= 1) by (nonlinear_arith)
        requires
            s >= 1,
            pow2(k) >= 1;
}

/// Normalises a rounded mantissa that carried over to 2^53.
pub open spec fn norm(x: (int, nat)) -> (int, nat) {
    if x.0 == hi53() && x.1 >= 1 { (lo53(), (x.1 - 1) as nat) } else { x }
}

/// `s / d` (`0 <= s`, `1 <= d`) rounded to binary64: scaled by `2^k` into
/// `[2^52, 2^53)` and rounded to the nearest integer, ties to even.
pub open spec fn frac_dbl(s: int, d: int) -> (int, nat) {
    if s <= 0 {
        (0, 0)
    } else {
        let k = up_k(s, d, 0);
        norm((rne(s * pow2(k), d), k))
    }
}

/// The value of `x` is at least 2^52 / 2^k when not zero, in normal form.
pub open spec fn dbl_ok(x: (int, nat)) -> bool {
    x.0 == 0 || (lo53() <= x.0 < hi53() && x.1 >= 1)
}

proof fn lemma_rne_bounds(a: int, b: int, lo: int, hi: int)
    requires
        b >= 1,
        0 <= a,
        lo * b <= a < hi * b,
    ensures
        lo <= rne(a, b) <= hi,
{
    lemma_fundamental_div_mod(a, b);
    let q = a / b;
    let r = a % b;
    assert(0 <= r < b);
    assert(lo <= q < hi) by (nonlinear_arith)
        requires
            a == b * q + r,
            0 <= r < b,
            lo * b <= a < hi * b,
            b >= 1;
}

proof fn lemma_up_k(s: int, d: int, k: nat)
    requires
        s >= 1,
        d >= 1,
        s * pow2(k) < hi53() * d,
    ensures
        up_k(s, d, k) >= k,
        lo53() * d <= s * pow2(up_k(s, d, k)) < hi53() * d,
    decreases 2 * (lo53() * d) - s * pow2(k),
{
    if s * pow2(k) < lo53() * d {
        lemma_up_step(s, k);
        lemma_up_k(s, d, k + 1);
    }
}

/// `frac_dbl` of a fraction at most 1 is in normal form, with a scale of
/// at least 51.
pub(crate) proof fn lemma_frac_dbl_ok(s: int, d: int)
    requires
        0 <= s <= d,
        d >= 1,
    ensures
        dbl_ok(frac_dbl(s, d)),
        s > 0 ==> frac_dbl(s, d).1 >= 51,
{
    if s > 0 {
        lemma_pow2_pos(0);
        assert(pow2(0) == 1) by {
            vstd::arithmetic::power2::lemma2_to64();
        }
        lemma_up_k(s, d, 0);
        let k = up_k(s, d, 0);
        lemma_rne_bounds(s * pow2(k), d, lo53(), hi53());
        lemma_scale_at_least_52(s, d, k);
    }
}

proof fn lemma_scale_at_least_52(s: int, d: int, k: nat)
    requires
        1 <= s <= d,
        lo53() * d <= s * pow2(k),
    ensures
        k >= 52,
{
    if k < 52 {
        lemma_pow2_52();
        lemma_pow2_strictly_below(k, 52);
        assert(s * pow2(k) < lo53() * d) by (nonlinear_arith)
            requires
                1 <= s <= d,
                1 <= pow2(k) < lo53();
    }
}

proof fn lemma_pow2_strictly_below(a: nat, b: nat)
    requires
        a < b,
    ensures
        1 <= pow2(a) < pow2(b),
{
    lemma_pow2_pos(a);
    vstd::arithmetic::power2::lemma_pow2_strictly_increases(a, b);
}

/// `frac_dbl(s, d)`.
pub(crate) fn frac_dbl_exec(s: u64, d: u64) -> (r: (u64, u32))
    requires
        s <= 64 * d,
        1 <= d <= 0x10_0000_0000_0000,
    ensures
        (r.0 as int, r.1 as nat) == frac_dbl(s as int, d as int),
        r.1 <= 106,
{
    if s == 0 {
        return (0, 0);
    }
    let ghost gs = s as int;
    let ghost gd = d as int;
    let target: u128 = 0x10_0000_0000_0000u128 * d as u128;
    let mut x: u128 = s as u128;
    let mut k: u32 = 0;
    proof {
        vstd::arithmetic::power2::lemma2_to64();
    }
    while x < target
        invariant
            1 <= gs <= 64 * gd,
            gs == s,
            gd == d,
            target == lo53() * gd,
            1 <= gd <= lo53(),
            x == gs * pow2(k as nat),
            x < hi53() * gd,
            k <= 106,
            up_k(gs, gd, 0) == up_k(gs, gd, k as nat),
        decreases 2 * target - x,
    {
        proof {
            lemma_up_step(gs, k as nat);
            assert(k < 106) by {
                if k >= 106 {
                    lemma_pow2_big(k as nat);
                    assert(gs * pow2(k as nat) >= lo53() * gd) by (nonlinear_arith)
                        requires
                            gs >= 1,
                            pow2(k as nat) >= lo53() * lo53(),
                            gd <= lo53();
                }
            }
        }
        x = x * 2;
        k = k + 1;
    }
    proof {
        assert(up_k(gs, gd, k as nat) == k);
        lemma_rne_bounds(x as int, gd, lo53(), hi53());
    }
    let q = x / d as u128;
    let rem = x % d as u128;
    let m: u128 = if 2 * rem > d as u128 || (2 * rem == d as u128 && q % 2 == 1) { q + 1 } else { q };
    proof {
        assert(m == rne(x as int, gd));
        lemma_pow2_pos(0);
        lemma_up_k(gs, gd, 0);
        lemma_frac_scale_lo(gs, gd);
    }
    if m == 0x20_0000_0000_0000 {
        (0x10_0000_0000_0000, k - 1)
    } else {
        (m as u64, k)
    }
}

/// 2^52 and 2^53 as `pow2` gives them.
pub(crate) proof fn lemma_pow2_52()
    ensures
        pow2(52) == lo53(),
        pow2(53) == hi53(),
{
    vstd::arithmetic::power2::lemma2_to64();
    vstd::arithmetic::power2::lemma_pow2_adds(32, 20);
    vstd::arithmetic::power2::lemma_pow2_adds(32, 21);
}

proof fn lemma_pow2_big(k: nat)
    requires
        k >= 106,
    ensures
        pow2(k) >= lo53() * lo53(),
{
    lemma_pow2_52();
    vstd::arithmetic::power2::lemma_pow2_adds(52, 52);
    vstd::arithmetic::power2::lemma_pow2_strictly_increases(104, k);
}

proof fn lemma_rne_le(a: int, b: int, h: int)
    requires
        b >= 1,
        0 <= a <= h * b,
    ensures
        rne(a, b) <= h,
{
    lemma_fundamental_div_mod(a, b);
    let q = a / b;
    let r = a % b;
    if q >= h {
        assert(q == h && r == 0) by (nonlinear_arith)
            requires
                a == b * q + r,
                0 <= r < b,
                a <= h * b,
                q >= h,
                b >= 1;
    }
}

/// A fraction at most 1 rounds to a value at most 1.
pub(crate) proof fn lemma_frac_dbl_le_one(s: int, d: int)
    requires
        0 <= s <= d,
        d >= 1,
    ensures
        frac_dbl(s, d).0 <= pow2(frac_dbl(s, d).1),
{
    if s > 0 {
        lemma_frac_dbl_ok(s, d);
        let k = up_k(s, d, 0);
        lemma_pow2_pos(k);
        assert(s * pow2(k) <= pow2(k) * d) by (nonlinear_arith)
            requires
                s <= d,
                pow2(k) >= 1;
        lemma_rne_le(s * pow2(k), d, pow2(k) as int);
        if rne(s * pow2(k), d) == hi53() && k >= 1 {
            lemma_pow2_unfold(k);
        }
    }
}

// ------------------------------------------------------------ products

/// The least `j`, from `j` on, at which `n / 2^j` falls below 2^53: the
/// number of low bits a product of mantissas loses.
pub open spec fn down_j(n: int, j: nat) -> nat
    decreases n - pow2(j),
{
    if n / (pow2(j) as int) < hi53() {
        j
    } else {
        proof {
            lemma_down_step(n, j);
        }
        down_j(n, j + 1)
    }
}

/// One step of the shift search.
pub proof fn lemma_down_step(n: int, j: nat)
    requires
        n / (pow2(j) as int) >= hi53(),
    ensures
        pow2(j + 1) == 2 * pow2(j),
        hi53() * pow2(j) <= n,
        n - pow2(j + 1) >= 0,
        n - pow2(j + 1) < n - pow2(j),
{
    lemma_pow2_unfold(j + 1);
    lemma_pow2_pos(j);
    lemma_fundamental_div_mod(n, pow2(j) as int);
    let p = pow2(j) as int;
    assert(hi53() * p <= n) by (nonlinear_arith)
        requires
            n == p * (n / p) + n % p,
            0 <= n % p,
            n / p >= hi53(),
            p >= 1;
}

proof fn lemma_down_j(n: int, j: nat)
    requires
        lo53() * pow2(j) <= n,
    ensures
        down_j(n, j) >= j,
        lo53() * pow2(down_j(n, j)) <= n < hi53() * pow2(down_j(n, j)),
    decreases n - pow2(j),
{
    lemma_pow2_pos(j);
    if n / (pow2(j) as int) < hi53() {
        lemma_fundamental_div_mod(n, pow2(j) as int);
        let p = pow2(j) as int;
        assert(n < hi53() * p) by (nonlinear_arith)
            requires
                n == p * (n / p) + n % p,
                n % p < p,
                n / p < hi53(),
                p >= 1;
    } else {
        lemma_down_step(n, j);
        lemma_down_j(n, j + 1);
    }
}

/// The product of two values rounded to binary64: the product `n` of the
/// mantissas, shifted right by `j` bits into `[2^52, 2^53)` and rounded to
/// the nearest integer, ties to even, over the sum of the scales less `j`.
pub open spec fn mul_dbl(x: (int, nat), y: (int, nat)) -> (int, nat) {
    let n = x.0 * y.0;
    let j = down_j(n, 0);
    norm((rne(n, pow2(j) as int), (x.1 + y.1 - j) as nat))
}

/// Multiplying a value below `2^b` (`b <= 50`) by a normal value at most 1
/// gives a normal value below `2^(b + 1)`, and no scale runs out.
pub(crate) proof fn lemma_mul_dbl(x: (int, nat), y: (int, nat), b: nat)
    requires
        x.0 >= 1,
        lo53() <= y.0 < hi53(),
        y.0 <= pow2(y.1),
        b <= 50,
        x.0 < pow2(b + x.1),
    ensures
        down_j(x.0 * y.0, 0) + 2 <= x.1 + y.1,
        dbl_ok(mul_dbl(x, y)),
        mul_dbl(x, y).0 >= lo53(),
        mul_dbl(x, y).0 < pow2(b + 1 + mul_dbl(x, y).1),
{
    let n = x.0 * y.0;
    lemma_pow2_52();
    vstd::arithmetic::power2::lemma2_to64();
    assert(n >= lo53() * pow2(0)) by (nonlinear_arith)
        requires
            n == x.0 * y.0,
            x.0 >= 1,
            y.0 >= lo53(),
            pow2(0) == 1;
    lemma_down_j(n, 0);
    let j = down_j(n, 0);
    let k = x.1 + y.1;
    // n < 2^b * 2^x.1 * 2^y.1 = 2^(b + k)
    vstd::arithmetic::power2::lemma_pow2_adds(b + x.1, y.1);
    lemma_pow2_pos(b + x.1);
    lemma_pow2_pos(y.1);
    assert(n < pow2(b + k)) by (nonlinear_arith)
        requires
            n == x.0 * y.0,
            1 <= x.0 < pow2(b + x.1),
            1 <= y.0 <= pow2(y.1),
            pow2(b + k) == pow2(b + x.1) * pow2(y.1);
    // 2^(52 + j) <= n, so 52 + j < b + k
    vstd::arithmetic::power2::lemma_pow2_adds(52, j);
    if 52 + j >= b + k {
        if 52 + j > b + k {
            vstd::arithmetic::power2::lemma_pow2_strictly_increases(b + k, 52 + j);
        }
        assert(false);
    }
    let m = rne(n, pow2(j) as int);
    lemma_pow2_pos(j);
    lemma_rne_bounds(n, pow2(j) as int, lo53(), hi53());
    // m <= n / 2^j + 1 < 2^(b + k - j) + 1, so m <= 2^(b + k - j)
    let e = (k - j) as nat;
    vstd::arithmetic::power2::lemma_pow2_adds(b + e, j);
    assert(b + e + j == b + k);
    lemma_rne_le(n, pow2(j) as int, pow2(b + e) as int);
    if m == hi53() {
        lemma_pow2_unfold(b + e);
        assert(b + 1 + (e - 1) as nat == b + e);
        vstd::arithmetic::power2::lemma_pow2_strictly_increases(53, b + 1 + e);
    } else {
        if b + 1 + e > 0 {
            lemma_pow2_unfold(b + 1 + e);
        }
        assert(m < pow2(b + 1 + e)) by {
            lemma_pow2_unfold((b + 1 + e) as nat);
            assert(b + 1 + e - 1 == b + e);
        }
    }
}

/// `mul_dbl(x, y)`.
pub(crate) fn mul_dbl_exec(x: (u64, u32), y: (u64, u32)) -> (r: (u64, u32))
    requires
        x.0 >= 1,
        lo53() <= y.0 < hi53(),
        y.0 <= pow2(y.1 as nat),
        x.0 < pow2(50 + x.1 as nat),
        x.1 + y.1 <= 0xffff_ffff,
    ensures
        (r.0 as int, r.1 as nat) == mul_dbl((x.0 as int, x.1 as nat), (y.0 as int, y.1 as nat)),
{
    let ghost gx = (x.0 as int, x.1 as nat);
    let ghost gy = (y.0 as int, y.1 as nat);
    proof {
        lemma_mul_dbl(gx, gy, 50);
        lemma_pow2_52();
        vstd::arithmetic::power2::lemma2_to64();
    }
    assert(x.0 * y.0 < 0x1_0000_0000_0000_0000 * hi53()) by (nonlinear_arith)
        requires
            x.0 < 0x1_0000_0000_0000_0000,
            y.0 < hi53();
    let n: u128 = x.0 as u128 * y.0 as u128;
    let ghost gn = n as int;
    let mut p: u128 = 1;
    let mut j: u32 = 0;
    proof {
        assert(n >= lo53()) by (nonlinear_arith)
            requires
                n == x.0 * y.0,
                x.0 >= 1,
                y.0 >= lo53();
    }
    while n / p >= 0x20_0000_0000_0000
        invariant
            gn == n,
            gn >= lo53(),
            p == pow2(j as nat),
            p >= 1,
            down_j(gn, 0) == down_j(gn, j as nat),
            lo53() * pow2(j as nat) <= gn,
            down_j(gn, 0) + 2 <= x.1 + y.1,
            x.1 + y.1 <= 0xffff_ffff,
            j <= down_j(gn, 0),
        decreases gn - p,
    {
        proof {
            lemma_down_step(gn, j as nat);
            lemma_down_j(gn, j as nat);
            assert(down_j(gn, j as nat) == down_j(gn, (j + 1) as nat));
            assert(lo53() * pow2((j + 1) as nat) == hi53() * pow2(j as nat)) by (nonlinear_arith)
                requires
                    pow2((j + 1) as nat) == 2 * pow2(j as nat),
                    hi53() == 2 * lo53();
            lemma_down_j(gn, (j + 1) as nat);
            assert(j + 1 <= down_j(gn, 0));
        }
        p = p * 2;
        j = j + 1;
    }
    proof {
        assert(down_j(gn, j as nat) == j);
    }
    let q = n / p;
    let rem = n % p;
    let m: u128 = if 2 * rem > p || (2 * rem == p && q % 2 == 1) { q + 1 } else { q };
    proof {
        lemma_down_j(gn, 0);
        lemma_rne_bounds(gn, p as int, lo53(), hi53());
    }
    let k = x.1 + y.1 - j;
    if m == 0x20_0000_0000_0000 {
        (0x10_0000_0000_0000, k - 1)
    } else {
        (m as u64, k)
    }
}

// ------------------------------------------------------------ comparisons

/// The value of `x` exceeds that of `y`.
pub open spec fn dbl_gt(x: (int, nat), y: (int, nat)) -> bool {
    x.0 * pow2(y.1) > y.0 * pow2(x.1)
}

/// Between values in normal form the larger is the one with the smaller
/// scale, or with the larger mantissa at the same scale.
pub(crate) fn dbl_gt_exec(x: (u64, u32), y: (u64, u32)) -> (r: bool)
    requires
        lo53() <= x.0 < hi53(),
        lo53() <= y.0 < hi53(),
    ensures
        r == dbl_gt((x.0 as int, x.1 as nat), (y.0 as int, y.1 as nat)),
{
    proof {
        if x.1 < y.1 {
            lemma_dbl_order(x.0 as int, x.1 as nat, y.0 as int, y.1 as nat);
        } else if y.1 < x.1 {
            lemma_dbl_order(y.0 as int, y.1 as nat, x.0 as int, x.1 as nat);
        } else {
            lemma_pow2_pos(x.1 as nat);
            assert(x.0 * pow2(x.1 as nat) > y.0 * pow2(x.1 as nat) <==> x.0 > y.0) by (nonlinear_arith)
                requires
                    pow2(x.1 as nat) >= 1;
        }
    }
    x.1 < y.1 || (x.1 == y.1 && x.0 > y.0)
}

proof fn lemma_dbl_order(m1: int, k1: nat, m2: int, k2: nat)
    requires
        lo53() <= m1 < hi53(),
        lo53() <= m2 < hi53(),
        k1 < k2,
    ensures
        m1 * pow2(k2) > m2 * pow2(k1),
{
    let d = (k2 - k1) as nat;
    vstd::arithmetic::power2::lemma_pow2_adds(k1, d);
    lemma_pow2_pos(k1);
    lemma_pow2_unfold(d);
    lemma_pow2_pos((d - 1) as nat);
    assert(m1 * pow2(k2) > m2 * pow2(k1)) by (nonlinear_arith)
        requires
            lo53() <= m1 < hi53(),
            lo53() <= m2 < hi53(),
            pow2(k2) == pow2(k1) * pow2(d),
            pow2(d) == 2 * pow2((d - 1) as nat),
            pow2((d - 1) as nat) >= 1,
            pow2(k1) >= 1,
            hi53() == 2 * lo53();
}

// ------------------------------------------------------------ differences

/// Twice eight hundredths in binary64, less one unit of 2^-57: eight
/// hundredths rounds to `5764607523034235 / 2^56`, whose mantissa is odd,
/// so a difference rounds below it exactly when it is at most the midpoint
/// `11529215046068469 / 2^57` between it and the next value down.
pub open spec fn step_mid() -> int {
    11529215046068469
}

/// The difference of the values of `a` and `b`, rounded to binary64, is
/// below eight hundredths: the exact difference is at most `step_mid() / 2^57`.
pub open spec fn step_below_dbl(a: (int, nat), b: (int, nat)) -> bool {
    a.0 * pow2(b.1 + 57) - b.0 * pow2(a.1 + 57) <= step_mid() * pow2(a.1 + b.1)
}

/// `2^e`.
pub(crate) fn pow2_exec(e: u32) -> (r: u128)
    requires
        e <= 127,
    ensures
        r == pow2(e as nat),
{
    let mut r: u128 = 1;
    let mut i: u32 = 0;
    proof {
        vstd::arithmetic::power2::lemma2_to64();
    }
    while i < e
        invariant
            i <= e <= 127,
            r == pow2(i as nat),
        decreases e - i,
    {
        proof {
            lemma_pow2_unfold((i + 1) as nat);
            vstd::arithmetic::power2::lemma_pow2_strictly_increases(i as nat, 127);
            vstd::arithmetic::power2::lemma_pow2_adds(64, 63);
            vstd::arithmetic::power2::lemma2_to64();
            lemma_pow2_63();
        }
        r = r * 2;
        i = i + 1;
    }
    r
}

proof fn lemma_pow2_63()
    ensures
        pow2(63) == 0x8000_0000_0000_0000,
{
    vstd::arithmetic::power2::lemma2_to64();
    vstd::arithmetic::power2::lemma_pow2_adds(32, 31);
}

/// `step_below_dbl(a, b)` for zeros and values of scale 51 to 120.
pub(crate) fn step_below_dbl_exec(a: (u64, u32), b: (u64, u32)) -> (r: bool)
    requires
        a.0 < hi53(),
        b.0 < hi53(),
        a.1 <= 120,
        b.1 <= 120,
        a.0 > 0 ==> a.1 >= 51,
        b.0 > 0 ==> b.1 >= 51,
    ensures
        r == step_below_dbl((a.0 as int, a.1 as nat), (b.0 as int, b.1 as nat)),
{
    let ghost (ma, ka, mb, kb) = (a.0 as int, a.1 as nat, b.0 as int, b.1 as nat);
    let pa = pow2_exec(120 - a.1);
    let pb = pow2_exec(120 - b.1);
    let p63 = pow2_exec(63);
    proof {
        lemma_term_small(ma, ka);
        lemma_term_small(mb, kb);
        lemma_pow2_63();
    }
    let ta: i128 = (a.0 as u128 * pa) as i128;
    let tb: i128 = (b.0 as u128 * pb) as i128;
    let rhs: i128 = (11529215046068469u128 * p63) as i128;
    proof {
        lemma_step_scaled(ma, ka, mb, kb);
    }
    ta - tb <= rhs
}

proof fn lemma_term_small(m: int, k: nat)
    requires
        0 <= m < hi53(),
        k <= 120,
        m > 0 ==> k >= 51,
    ensures
        0 <= m * pow2((120 - k) as nat) < 0x400_0000_0000_0000_0000_0000_0000_0000,
{
    lemma_pow2_pos((120 - k) as nat);
    if m > 0 {
        if k > 51 {
            vstd::arithmetic::power2::lemma_pow2_strictly_increases((120 - k) as nat, 69);
        }
        vstd::arithmetic::power2::lemma_pow2_adds(53, 69);
        lemma_pow2_52();
        lemma_pow2_122();
        assert(m * pow2((120 - k) as nat) < pow2(53) * pow2(69)) by (nonlinear_arith)
            requires
                0 < m < pow2(53),
                1 <= pow2((120 - k) as nat) <= pow2(69);
    } else {
        assert(m * pow2((120 - k) as nat) == 0);
    }
}

proof fn lemma_pow2_122()
    ensures
        pow2(122) == 0x400_0000_0000_0000_0000_0000_0000_0000,
{
    vstd::arithmetic::power2::lemma2_to64();
    vstd::arithmetic::power2::lemma_pow2_adds(64, 58);
    vstd::arithmetic::power2::lemma_pow2_adds(32, 26);
}

/// Scaling `step_below_dbl` by `2^(120 - a.1 - b.1)`.
proof fn lemma_step_scaled(ma: int, ka: nat, mb: int, kb: nat)
    requires
        ka <= 120,
        kb <= 120,
    ensures
        step_below_dbl((ma, ka), (mb, kb)) == (ma * pow2((120 - ka) as nat) - mb * pow2((120 - kb) as nat)
            <= step_mid() * pow2(63)),
{
    let (ea, eb) = ((120 - ka) as nat, (120 - kb) as nat);
    vstd::arithmetic::power2::lemma_pow2_adds(ea, ka + kb);
    vstd::arithmetic::power2::lemma_pow2_adds(eb, ka + kb);
    vstd::arithmetic::power2::lemma_pow2_adds(63, ka + kb);
    // 2^(120 - ka) * 2^(ka + kb) = 2^(120 + kb) = 2^(kb + 57) * 2^63
    vstd::arithmetic::power2::lemma_pow2_adds(kb + 57, 63);
    vstd::arithmetic::power2::lemma_pow2_adds(ka + 57, 63);
    assert(ea + (ka + kb) == (kb + 57) + 63);
    assert(eb + (ka + kb) == (ka + 57) + 63);
    let g = pow2(ka + kb) as int;
    let h = pow2(63) as int;
    lemma_pow2_pos(ka + kb);
    lemma_pow2_pos(63);
    let x = ma * pow2(ea) - mb * pow2(eb);
    let y = step_mid() * h;
    assert(x * g == (ma * pow2(kb + 57) - mb * pow2(ka + 57)) * h) by (nonlinear_arith)
        requires
            pow2(ea) * g == pow2(kb + 57) * h,
            pow2(eb) * g == pow2(ka + 57) * h,
            x == ma * pow2(ea) - mb * pow2(eb);
    assert(y * g == (step_mid() * g) * h) by (nonlinear_arith)
        requires
            y == step_mid() * h;
    assert((x <= y) == (x * g <= y * g)) by (nonlinear_arith)
        requires
            g >= 1;
    assert((x * g <= y * g) == ((ma * pow2(kb + 57) - mb * pow2(ka + 57)) * h <= (step_mid() * g) * h));
    assert(((ma * pow2(kb + 57) - mb * pow2(ka + 57)) * h <= (step_mid() * g) * h) == (ma * pow2(kb + 57) - mb
        * pow2(ka + 57) <= step_mid() * g)) by (nonlinear_arith)
        requires
            h >= 1;
}

/// A positive fraction rounds to a non-zero mantissa.
pub(crate) proof fn lemma_rne_frac_nonzero(s: int, d: int)
    requires
        1 <= s <= d,
    ensures
        lo53() <= frac_dbl(s, d).0 < hi53(),
{
    lemma_frac_dbl_ok(s, d);
    lemma_pow2_pos(0);
    vstd::arithmetic::power2::lemma2_to64();
    lemma_up_k(s, d, 0);
    let k = up_k(s, d, 0);
    lemma_rne_bounds(s * pow2(k), d, lo53(), hi53());
}

/// 2^49 and 2^50 as `pow2` gives them.
pub(crate) proof fn lemma_pow2_49()
    ensures
        pow2(49) == 0x2_0000_0000_0000,
        pow2(50) == 0x4_0000_0000_0000,
{
    vstd::arithmetic::power2::lemma2_to64();
    vstd::arithmetic::power2::lemma_pow2_adds(32, 17);
    vstd::arithmetic::power2::lemma_pow2_adds(32, 18);
}

/// A fraction of at most 64 has a scale of at least 46.
pub(crate) proof fn lemma_frac_scale_lo(s: int, d: int)
    requires
        1 <= s <= 64 * d,
        d >= 1,
    ensures
        up_k(s, d, 0) >= 46,
{
    lemma_pow2_pos(0);
    vstd::arithmetic::power2::lemma2_to64();
    lemma_up_k(s, d, 0);
    let k = up_k(s, d, 0);
    if k < 46 {
        lemma_pow2_52();
        vstd::arithmetic::power2::lemma_pow2_adds(46, 6);
        lemma_pow2_strictly_below(k, 46);
        assert(s * pow2(k) < lo53() * d) by (nonlinear_arith)
            requires
                1 <= s <= 64 * d,
                1 <= pow2(k) < pow2(46),
                lo53() == pow2(46) * 64;
    }
}

/// The scale search stops by `K` once `s * 2^K` reaches `2^52 * d`.
proof fn lemma_up_k_le(s: int, d: int, k: nat, kk: nat)
    requires
        s >= 1,
        d >= 1,
        k <= kk,
        s * pow2(kk) >= lo53() * d,
    ensures
        up_k(s, d, k) <= kk,
    decreases kk - k,
{
    if s * pow2(k) < lo53() * d {
        lemma_up_step(s, k);
        if k == kk {
            assert(false);
        }
        lemma_up_k_le(s, d, k + 1, kk);
    }
}

/// A fraction `s / d` with `1 <= s <= 64 * d` and `d <= 128` rounds to a
/// value in normal form of scale 45 to 59.
pub(crate) proof fn lemma_frac_scale_range(s: int, d: int)
    requires
        1 <= s <= 64 * d,
        1 <= d <= 128,
    ensures
        lo53() <= frac_dbl(s, d).0 < hi53(),
        45 <= frac_dbl(s, d).1 <= 59,
{
    lemma_pow2_pos(0);
    vstd::arithmetic::power2::lemma2_to64();
    lemma_up_k(s, d, 0);
    lemma_frac_scale_lo(s, d);
    let k = up_k(s, d, 0);
    lemma_pow2_52();
    vstd::arithmetic::power2::lemma_pow2_adds(52, 7);
    lemma_pow2_pos(59);
    assert(s * pow2(59) >= lo53() * d) by (nonlinear_arith)
        requires
            s >= 1,
            1 <= d <= 128,
            pow2(59) == lo53() * 128;
    lemma_up_k_le(s, d, 0, 59);
    lemma_rne_bounds(s * pow2(k), d, lo53(), hi53());
}

// ------------------------------------------------------------ sums

/// The larger of the two scales.
pub open spec fn add_scale(x: (int, nat), y: (int, nat)) -> nat {
    if x.1 >= y.1 { x.1 } else { y.1 }
}

/// The exact sum of two values, as a mantissa at the larger scale.
pub open spec fn add_num(x: (int, nat), y: (int, nat)) -> int {
    x.0 * pow2((add_scale(x, y) - x.1) as nat) + y.0 * pow2((add_scale(x, y) - y.1) as nat)
}

/// The sum of two non-negative values rounded to binary64: both mantissas
/// brought to the larger scale and added exactly, then the sum shifted
/// right into `[2^52, 2^53)` and rounded to the nearest integer, ties to
/// even. A zero operand gives the other one unchanged.
pub open spec fn add_dbl(x: (int, nat), y: (int, nat)) -> (int, nat) {
    if x.0 == 0 {
        y
    } else if y.0 == 0 {
        x
    } else {
        let n = add_num(x, y);
        let j = down_j(n, 0);
        norm((rne(n, pow2(j) as int), (add_scale(x, y) - j) as nat))
    }
}

/// A value that is zero, or in normal form with a scale of 44 to 70.
pub open spec fn small_dbl(x: (int, nat)) -> bool {
    x.0 == 0 || (lo53() <= x.0 < hi53() && 44 <= x.1 <= 70)
}

/// Adding two values of at most `2^c` (`c <= 7`) gives one of at most
/// `2^(c + 1)`; the shift stays 26 bits short of the scale.
pub(crate) proof fn lemma_add_dbl(x: (int, nat), y: (int, nat), c: nat)
    requires
        small_dbl(x),
        small_dbl(y),
        c <= 7,
        x.0 <= pow2(x.1 + c),
        y.0 <= pow2(y.1 + c),
    ensures
        small_dbl(add_dbl(x, y)),
        add_dbl(x, y).0 <= pow2(add_dbl(x, y).1 + c + 1),
        x.0 != 0 && y.0 != 0 ==> add_num(x, y) >= lo53() && down_j(add_num(x, y), 0) + 44 <= add_scale(x, y),
{
    lemma_pow2_52();
    vstd::arithmetic::power2::lemma2_to64();
    if x.0 == 0 || y.0 == 0 {
        lemma_pow2_unfold(x.1 + c + 1);
        lemma_pow2_unfold(y.1 + c + 1);
        lemma_pow2_pos(x.1 + c);
        lemma_pow2_pos(y.1 + c);
        assert((x.1 + c + 1 - 1) as nat == x.1 + c);
        assert((y.1 + c + 1 - 1) as nat == y.1 + c);
    } else {
        let kk = add_scale(x, y);
        let (da, db) = ((kk - x.1) as nat, (kk - y.1) as nat);
        let n = add_num(x, y);
        lemma_pow2_pos(da);
        lemma_pow2_pos(db);
        vstd::arithmetic::power2::lemma_pow2_adds(x.1 + c, da);
        vstd::arithmetic::power2::lemma_pow2_adds(y.1 + c, db);
        assert(x.1 + c + da == kk + c);
        assert(y.1 + c + db == kk + c);
        assert(x.0 * pow2(da) <= pow2(kk + c)) by (nonlinear_arith)
            requires
                0 <= x.0 <= pow2(x.1 + c),
                pow2(da) >= 1,
                pow2(kk + c) == pow2(x.1 + c) * pow2(da);
        assert(y.0 * pow2(db) <= pow2(kk + c)) by (nonlinear_arith)
            requires
                0 <= y.0 <= pow2(y.1 + c),
                pow2(db) >= 1,
                pow2(kk + c) == pow2(y.1 + c) * pow2(db);
        lemma_pow2_unfold(kk + c + 1);
        assert((kk + c + 1 - 1) as nat == kk + c);
        assert(n <= pow2(kk + c + 1));
        assert(x.0 * pow2(da) >= 0 && y.0 * pow2(db) >= 0) by (nonlinear_arith)
            requires
                x.0 >= 0,
                y.0 >= 0,
                pow2(da) >= 1,
                pow2(db) >= 1;
        if x.1 >= y.1 {
            assert(da == 0);
            assert(pow2(da) == 1);
            assert(x.0 * pow2(da) == x.0) by (nonlinear_arith)
                requires
                    pow2(da) == 1;
        } else {
            assert(db == 0);
            assert(pow2(db) == 1);
            assert(y.0 * pow2(db) == y.0) by (nonlinear_arith)
                requires
                    pow2(db) == 1;
        }
        assert(n >= lo53());
        assert(n >= lo53() * pow2(0));
        lemma_down_j(n, 0);
        let j = down_j(n, 0);
        // 2^(52 + j) <= n <= 2^(kk + c + 1), so 52 + j <= kk + c + 1
        vstd::arithmetic::power2::lemma_pow2_adds(52, j);
        if 52 + j > kk + c + 1 {
            vstd::arithmetic::power2::lemma_pow2_strictly_increases(kk + c + 1, 52 + j);
            assert(false);
        }
        let m = rne(n, pow2(j) as int);
        lemma_pow2_pos(j);
        lemma_rne_bounds(n, pow2(j) as int, lo53(), hi53());
        let e = (kk - j) as nat;
        vstd::arithmetic::power2::lemma_pow2_adds(e + c + 1, j);
        assert(e + c + 1 + j == kk + c + 1);
        lemma_rne_le(n, pow2(j) as int, pow2(e + c + 1) as int);
        // m >= 2^52 and m <= 2^(e + c + 1): e + c + 1 >= 52
        if e + c + 1 < 52 {
            vstd::arithmetic::power2::lemma_pow2_strictly_increases(e + c + 1, 52);
            assert(false);
        }
        if m == hi53() {
            if e + c + 1 < 53 {
                vstd::arithmetic::power2::lemma_pow2_strictly_increases(e + c + 1, 53);
                assert(false);
            }
            lemma_pow2_unfold(e + c + 1);
            assert((e + c + 1 - 1) as nat == (e - 1) as nat + c + 1);
            if e + c > 52 {
                vstd::arithmetic::power2::lemma_pow2_strictly_increases(52, e + c);
            }
        }
    }
}

/// `add_dbl(x, y)` for values as `lemma_add_dbl` takes them.
pub(crate) fn add_dbl_exec(x: (u64, u32), y: (u64, u32), Ghost(c): Ghost<nat>) -> (r: (u64, u32))
    requires
        small_dbl((x.0 as int, x.1 as nat)),
        small_dbl((y.0 as int, y.1 as nat)),
        c <= 7,
        x.0 <= pow2(x.1 as nat + c),
        y.0 <= pow2(y.1 as nat + c),
    ensures
        (r.0 as int, r.1 as nat) == add_dbl((x.0 as int, x.1 as nat), (y.0 as int, y.1 as nat)),
{
    let ghost (gx, gy) = ((x.0 as int, x.1 as nat), (y.0 as int, y.1 as nat));
    proof {
        lemma_add_dbl(gx, gy, c);
    }
    if x.0 == 0 {
        return y;
    }
    if y.0 == 0 {
        return x;
    }
    let kk = if x.1 >= y.1 { x.1 } else { y.1 };
    let pa = pow2_exec(kk - x.1);
    let pb = pow2_exec(kk - y.1);
    proof {
        vstd::arithmetic::power2::lemma2_to64();
        if kk - x.1 < 26 {
            vstd::arithmetic::power2::lemma_pow2_strictly_increases((kk - x.1) as nat, 26);
        }
        if kk - y.1 < 26 {
            vstd::arithmetic::power2::lemma_pow2_strictly_increases((kk - y.1) as nat, 26);
        }
        assert(pow2(26) == 0x400_0000);
        assert(x.0 * pa <= hi53() * 0x400_0000) by (nonlinear_arith)
            requires
                x.0 < hi53(),
                pa <= 0x400_0000;
        assert(y.0 * pb <= hi53() * 0x400_0000) by (nonlinear_arith)
            requires
                y.0 < hi53(),
                pb <= 0x400_0000;
    }
    let n: u128 = x.0 as u128 * pa + y.0 as u128 * pb;
    let ghost gn = n as int;
    proof {
        assert(gn == add_num(gx, gy));
        assert(gn >= lo53() * pow2(0));
    }
    let mut p: u128 = 1;
    let mut j: u32 = 0;
    while n / p >= 0x20_0000_0000_0000
        invariant
            gn == n,
            gn >= lo53(),
            p == pow2(j as nat),
            p >= 1,
            down_j(gn, 0) == down_j(gn, j as nat),
            lo53() * pow2(j as nat) <= gn,
            j <= down_j(gn, 0),
            down_j(gn, 0) + 44 <= kk,
            kk <= 70,
        decreases gn - p,
    {
        proof {
            lemma_down_step(gn, j as nat);
            assert(down_j(gn, j as nat) == down_j(gn, (j + 1) as nat));
            assert(lo53() * pow2((j + 1) as nat) == hi53() * pow2(j as nat)) by (nonlinear_arith)
                requires
                    pow2((j + 1) as nat) == 2 * pow2(j as nat),
                    hi53() == 2 * lo53();
            lemma_down_j(gn, (j + 1) as nat);
        }
        p = p * 2;
        j = j + 1;
    }
    let q = n / p;
    let rem = n % p;
    let m: u128 = if 2 * rem > p || (2 * rem == p && q % 2 == 1) { q + 1 } else { q };
    proof {
        assert(down_j(gn, 0) == j);
        lemma_down_j(gn, 0);
        lemma_rne_bounds(gn, p as int, lo53(), hi53());
    }
    let k = kk - j;
    if m == 0x20_0000_0000_0000 {
        (0x10_0000_0000_0000, k - 1)
    } else {
        (m as u64, k)
    }
}

/// `2^a <= 2^b` for `a <= b`.
pub(crate) proof fn lemma_pow2_mono(a: nat, b: nat)
    requires
        a <= b,
    ensures
        pow2(a) <= pow2(b),
{
    if a < b {
        vstd::arithmetic::power2::lemma_pow2_strictly_increases(a, b);
    }
}

/// A fraction of at most `2^c` rounds to a value of at most `2^c`.
pub(crate) proof fn lemma_frac_le_pow(s: int, d: int, c: nat)
    requires
        1 <= s,
        1 <= d,
        s <= pow2(c) * d,
        s <= 64 * d,
    ensures
        frac_dbl(s, d).0 <= pow2(frac_dbl(s, d).1 + c),
{
    lemma_pow2_pos(0);
    vstd::arithmetic::power2::lemma2_to64();
    lemma_up_k(s, d, 0);
    lemma_frac_scale_lo(s, d);
    let k = up_k(s, d, 0);
    lemma_pow2_pos(k);
    lemma_pow2_pos(c);
    vstd::arithmetic::power2::lemma_pow2_adds(k, c);
    assert(s * pow2(k) <= pow2(k + c) * d) by (nonlinear_arith)
        requires
            s <= pow2(c) * d,
            pow2(k) >= 1,
            pow2(k + c) == pow2(k) * pow2(c);
    lemma_rne_le(s * pow2(k), d, pow2(k + c) as int);
    if rne(s * pow2(k), d) == hi53() {
        lemma_pow2_unfold(k + c);
        assert((k + c - 1) as nat == (k - 1) as nat + c);
        lemma_pow2_52();
        if k + c < 53 {
            lemma_pow2_mono(k + c, 52);
            assert(false);
        }
        lemma_pow2_mono(52, (k + c - 1) as nat);
    }
}

} // verus!
