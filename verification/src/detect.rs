use vstd::prelude::*;
use crate::dbl::{
    dbl_gt, dbl_gt_exec, frac_dbl, frac_dbl_exec, hi53, lo53, mul_dbl, mul_dbl_exec, step_below_dbl, step_below_dbl_exec,
};
use crate::geom::{is_plane, px, Rect};

verus! {

// ---------------------------------------------------------------- hue distance

/// Circular distance between two hues on OpenCV's 0..180 hue wheel.
pub open spec fn hue_dist_spec(a: int, b: int) -> int {
    let d = if a >= b { a - b } else { b - a };
    if d <= 180 - d { d } else { 180 - d }
}

pub fn hue_dist(a: i32, b: i32) -> (r: i32)
    requires
        i32::MIN < a - b <= i32::MAX,
    ensures
        r == hue_dist_spec(a as int, b as int),
{
    let d = if a >= b { a - b } else { b - a };
    if d <= 180 - d { d } else { 180 - d }
}

// ---------------------------------------------------------------- longest run

/// Number of consecutive misses a run may bridge before it is closed.
pub const RUN_GAP: usize = 8;

/// The state of the run scan after some prefix of the column.
/// `bs..=be` is the best run recorded so far with `bc` hits in it, `cs` and
/// `cc` the start and hit count of the run being extended, `gap` the number
/// of misses since the last hit.
pub struct RunScan {
    pub bs: int,
    pub be: int,
    pub bc: int,
    pub cs: int,
    pub cc: int,
    pub gap: int,
}

pub open spec fn run_init() -> RunScan {
    RunScan { bs: 0, be: -1, bc: 0, cs: 0, cc: 0, gap: 0 }
}

/// One step of the scan at row `y`: a hit extends (or starts) the current run;
/// a miss grows the gap, and once the gap exceeds `RUN_GAP` the current run is
/// closed and recorded if it is longer than the best one.
pub open spec fn run_step(st: RunScan, y: int, hit: bool) -> RunScan {
    if hit {
        RunScan {
            bs: st.bs,
            be: st.be,
            bc: st.bc,
            cs: if st.cc == 0 { y } else { st.cs },
            cc: st.cc + 1,
            gap: 0,
        }
    } else {
        let gap = st.gap + 1;
        if gap > RUN_GAP {
            if st.cc > 0 && y - gap - st.cs > st.be - st.bs {
                RunScan { bs: st.cs, be: y - gap - 1, bc: st.cc, cs: st.cs, cc: 0, gap: gap }
            } else {
                RunScan { bs: st.bs, be: st.be, bc: st.bc, cs: st.cs, cc: 0, gap: gap }
            }
        } else {
            RunScan { bs: st.bs, be: st.be, bc: st.bc, cs: st.cs, cc: st.cc, gap: gap }
        }
    }
}

pub open spec fn run_scan(s: Seq<bool>, k: int) -> RunScan
    decreases k,
{
    if k <= 0 {
        run_init()
    } else {
        run_step(run_scan(s, k - 1), k - 1, s[k - 1])
    }
}

/// `(start, end, hits)` of the longest run of hits in `s` that bridges gaps of
/// at most `RUN_GAP` misses; a run still open at the end reaches the last row.
pub open spec fn longest_run_spec(s: Seq<bool>) -> (int, int, int) {
    let st = run_scan(s, s.len() as int);
    if st.cc > 0 && s.len() - st.cs > st.be - st.bs {
        (st.cs, s.len() - 1, st.cc)
    } else {
        (st.bs, st.be, st.bc)
    }
}

pub open spec fn run_bounds(st: RunScan, k: int) -> bool {
    &&& 0 <= st.bs
    &&& -1 <= st.be < k
    &&& st.be - st.bs >= -1
    &&& 0 <= st.bc <= k
    &&& 0 <= st.cs <= k
    &&& 0 <= st.cc <= k
    &&& 0 <= st.gap <= k
    &&& st.cc > 0 ==> k - 1 - st.gap >= st.cs
}

proof fn lemma_run_bounds(s: Seq<bool>, k: int)
    requires
        0 <= k <= s.len(),
    ensures
        run_bounds(run_scan(s, k), k),
    decreases k,
{
    if k > 0 {
        lemma_run_bounds(s, k - 1);
    }
}

proof fn lemma_longest_run_bounds(s: Seq<bool>)
    ensures
        ({
            let (a, b, c) = longest_run_spec(s);
            0 <= a && -1 <= b < s.len() && b - a >= -1 && 0 <= c <= s.len()
        }),
{
    lemma_run_bounds(s, s.len() as int);
}

/// No hit in the `RUN_GAP + 1` rows before row `a`: a run may start at `a`.
pub open spec fn run_starts_at(s: Seq<bool>, a: int) -> bool {
    forall|j: int| a - 9 <= j < a && 0 <= j ==> !#[trigger] s[j]
}

/// What the scan keeps true after the first `k` rows: the current gap is
/// made of misses; an open run starts at a hit that follows at least
/// `RUN_GAP + 1` misses (or none at all), and its last hit is at most
/// `RUN_GAP` rows back; the best run recorded starts the same way and ends
/// one row before its last hit, which is followed by `RUN_GAP + 1` misses;
/// with nothing recorded or open there was no hit.
pub open spec fn run_inv(s: Seq<bool>, st: RunScan, k: int) -> bool {
    &&& run_bounds(st, k)
    &&& forall|j: int| k - st.gap <= j < k ==> !#[trigger] s[j]
    &&& st.cc > 0 ==> s[st.cs] && run_starts_at(s, st.cs) && st.gap <= 8 && s[k - 1 - st.gap]
    &&& st.cc == 0 ==> st.gap >= 9 || forall|j: int| 0 <= j < k ==> !#[trigger] s[j]
    &&& st.bc > 0 ==> {
        &&& s[st.bs]
        &&& run_starts_at(s, st.bs)
        &&& st.be + 10 < k
        &&& s[st.be + 1]
        &&& forall|j: int| st.be + 2 <= j <= st.be + 10 ==> !#[trigger] s[j]
    }
    &&& st.bc == 0 ==> st.bs == 0 && st.be == -1
    &&& st.bc == 0 && st.cc == 0 ==> forall|j: int| 0 <= j < k ==> !#[trigger] s[j]
}

proof fn lemma_run_inv(s: Seq<bool>, k: int)
    requires
        0 <= k <= s.len(),
    ensures
        run_inv(s, run_scan(s, k), k),
    decreases k,
{
    lemma_run_bounds(s, k);
    if k > 0 {
        lemma_run_inv(s, k - 1);
        lemma_run_bounds(s, k - 1);
        let st = run_scan(s, k - 1);
        let y = k - 1;
        if !s[y] && st.gap + 1 > 8 && st.cc > 0 {
            assert(st.gap == 8);
            assert(s[y - 9]);
        }
    }
}

/// What the longest run means. With no hit the result is `(0, -1, 0)`, and
/// a hit gives a positive count. Otherwise the run starts at a hit after at
/// least `RUN_GAP + 1` misses (or at the first hit), and either it is still
/// open at the end, reaching the last row with its last hit at most
/// `RUN_GAP` rows before it, or it was closed by `RUN_GAP + 1` misses and
/// ends one row before its last hit.
pub proof fn lemma_longest_run_meaning(s: Seq<bool>)
    ensures
        ({
            let (a, b, c) = longest_run_spec(s);
            let n = s.len() as int;
            &&& c == 0 <==> forall|j: int| 0 <= j < n ==> !#[trigger] s[j]
            &&& c == 0 ==> a == 0 && b == -1
            &&& c > 0 ==> 0 <= a < n && s[a] && run_starts_at(s, a)
            &&& c > 0 ==> {
                ||| b == n - 1 && exists|j: int| n - 9 <= j < n && a <= j && #[trigger] s[j]
                ||| b + 10 < n && s[b + 1] && forall|j: int| b + 2 <= j <= b + 10 ==> !#[trigger] s[j]
            }
        }),
{
    let n = s.len() as int;
    lemma_run_inv(s, n);
    let st = run_scan(s, n);
    if st.cc > 0 {
        assert(s[n - 1 - st.gap]);
    }
    if st.bc > 0 {
        assert(s[st.bs]);
    }
}

/// Rows `a..=l` hold a run of hits: both ends are hits, no hit lies in the
/// `RUN_GAP + 1` rows before `a` or the `RUN_GAP + 1` rows after `l`, and
/// between them every hit is followed by another within `RUN_GAP + 1` rows
/// (so no gap of more than `RUN_GAP` misses).
pub open spec fn is_run(s: Seq<bool>, a: int, l: int) -> bool {
    &&& 0 <= a <= l < s.len()
    &&& s[a]
    &&& s[l]
    &&& run_starts_at(s, a)
    &&& forall|i: int| a <= i < l && #[trigger] s[i] ==> exists|m: int| i < m <= i + 9 && #[trigger] s[m]
    &&& forall|j: int| l < j <= l + 9 && j < s.len() ==> !#[trigger] s[j]
}

/// The row reported as the end of the run whose last hit is row `l`: a run
/// closed by `RUN_GAP + 1` misses ends one row before its last hit, a run
/// still open at the end of the column reaches the last row.
pub open spec fn run_end(s: Seq<bool>, l: int) -> int {
    if l + 9 < s.len() { l - 1 } else { s.len() - 1 }
}

proof fn lemma_best_span_grows(s: Seq<bool>, k1: int, k2: int)
    requires
        0 <= k1 <= k2 <= s.len(),
    ensures
        run_scan(s, k2).be - run_scan(s, k2).bs >= run_scan(s, k1).be - run_scan(s, k1).bs,
    decreases k2 - k1,
{
    if k1 < k2 {
        lemma_best_span_grows(s, k1, k2 - 1);
    }
}

/// While the scan is inside the run `a..=l` (and up to `RUN_GAP` rows past its
/// last hit), the run being extended is that one.
proof fn lemma_run_tracked(s: Seq<bool>, a: int, l: int, k: int)
    requires
        is_run(s, a, l),
        a + 1 <= k <= s.len(),
        k <= l + 9,
    ensures
        run_scan(s, k).cc > 0,
        run_scan(s, k).cs == a,
        k > l ==> run_scan(s, k).gap == k - 1 - l,
    decreases k,
{
    lemma_run_inv(s, k - 1);
    let st = run_scan(s, k - 1);
    let y = k - 1;
    if k == a + 1 {
        if st.cc > 0 {
            assert(s[k - 2 - st.gap]);
            assert(!s[k - 2 - st.gap]);
        }
    } else {
        lemma_run_tracked(s, a, l, k - 1);
        if !s[y] && y <= l {
            let lh = y - 1 - st.gap;
            assert(s[lh]);
            assert(a <= lh < l);
            let m = choose|m: int| lh < m <= lh + 9 && #[trigger] s[m];
            if st.gap + 1 > 8 {
                assert(m <= y);
                assert(!s[m]);
            }
        }
        if y > l {
            assert(!s[y]);
        }
    }
}

/// The longest run is the longest: every run of hits (bridging gaps of at
/// most `RUN_GAP` misses) spans at most as many rows, end minus start, as
/// the one returned, so a later, shorter run never replaces a longer one.
pub proof fn lemma_longest_run_is_longest(s: Seq<bool>, a: int, l: int)
    requires
        is_run(s, a, l),
    ensures
        longest_run_spec(s).1 - longest_run_spec(s).0 >= run_end(s, l) - a,
{
    let n = s.len() as int;
    if l + 9 < n {
        lemma_run_tracked(s, a, l, l + 9);
        assert(!s[l + 9]);
        lemma_best_span_grows(s, l + 10, n);
    } else {
        lemma_run_tracked(s, a, l, n);
    }
}

/// Number of hits in rows `lo..hi`.
pub open spec fn hits_in(s: Seq<bool>, lo: int, hi: int) -> int
    decreases hi - lo,
{
    if hi <= lo {
        0
    } else {
        hits_in(s, lo, hi - 1) + if s[hi - 1] { 1int } else { 0int }
    }
}

proof fn lemma_hits_in_misses(s: Seq<bool>, lo: int, m: int, h: int)
    requires
        lo <= m <= h,
        forall|j: int| m <= j < h ==> !#[trigger] s[j],
    ensures
        hits_in(s, lo, h) == hits_in(s, lo, m),
    decreases h - m,
{
    if h > m {
        lemma_hits_in_misses(s, lo, m, h - 1);
    }
}

/// Every hit of rows `lo..last` is followed by another within `RUN_GAP + 1`
/// rows.
pub open spec fn gaps_bridged(s: Seq<bool>, lo: int, last: int) -> bool {
    forall|i: int| lo <= i < last && #[trigger] s[i] ==> exists|m: int| i < m <= i + 9 && #[trigger] s[m]
}

/// The scan's counts are the hits of its runs, and its runs bridge their gaps.
pub open spec fn run_inv_counts(s: Seq<bool>, st: RunScan, k: int) -> bool {
    &&& st.cc > 0 ==> st.cc == hits_in(s, st.cs, k) && gaps_bridged(s, st.cs, k - 1 - st.gap)
    &&& st.bc > 0 ==> st.bc == hits_in(s, st.bs, st.be + 2) && gaps_bridged(s, st.bs, st.be + 1)
}

proof fn lemma_run_inv_counts(s: Seq<bool>, k: int)
    requires
        0 <= k <= s.len(),
    ensures
        run_inv_counts(s, run_scan(s, k), k),
    decreases k,
{
    if k > 0 {
        lemma_run_inv_counts(s, k - 1);
        lemma_run_inv(s, k - 1);
        lemma_run_bounds(s, k - 1);
        let st = run_scan(s, k - 1);
        let y = k - 1;
        if s[y] {
            assert(hits_in(s, y, y) == 0);
            assert(hits_in(s, y, k) == 1);
            if st.cc > 0 {
                assert(hits_in(s, st.cs, k) == hits_in(s, st.cs, y) + 1);
                let lh = y - 1 - st.gap;
                assert forall|i: int| st.cs <= i < y && #[trigger] s[i] implies exists|m: int|
                    i < m <= i + 9 && #[trigger] s[m] by {
                    if i < lh {
                    } else if i == lh {
                        assert(s[y]);
                    } else {
                        assert(!s[i]);
                    }
                }
            }
        } else {
            if st.cc > 0 {
                lemma_hits_in_misses(s, st.cs, k - 1, k);
            }
            if st.gap + 1 > 8 && st.cc > 0 {
                let lh = y - 1 - st.gap;
                lemma_hits_in_misses(s, st.cs, lh + 1, k);
            }
        }
    }
}

/// The run returned is a run: when the column has a hit, rows `a..` hold a
/// run of hits whose reported end is `b`, and `c` counts the hits from `a`
/// through the run's last hit.
pub proof fn lemma_longest_run_is_a_run(s: Seq<bool>)
    ensures
        ({
            let (a, b, c) = longest_run_spec(s);
            let n = s.len() as int;
            c > 0 ==> exists|l: int| #[trigger] is_run(s, a, l) && b == run_end(s, l) && c == hits_in(s, a, l + 1)
        }),
{
    let n = s.len() as int;
    lemma_run_inv(s, n);
    lemma_run_inv_counts(s, n);
    let st = run_scan(s, n);
    let (a, b, c) = longest_run_spec(s);
    if st.cc > 0 && n - st.cs > st.be - st.bs {
        let l = n - 1 - st.gap;
        lemma_hits_in_misses(s, st.cs, l + 1, n);
        assert(is_run(s, a, l));
    } else if st.bc > 0 {
        let l = st.be + 1;
        assert(is_run(s, a, l));
    }
}

/// Longest run of `true` in `hits`, allowing gaps of up to `RUN_GAP` misses.
pub fn longest_run(hits: &Vec<bool>) -> (r: (i32, i32, i32))
    requires
        hits.len() <= i32::MAX,
    ensures
        (r.0 as int, r.1 as int, r.2 as int) == longest_run_spec(hits@),
        0 <= r.0,
        -1 <= r.1 < hits.len(),
        r.1 - r.0 >= -1,
        0 <= r.2 <= hits.len(),
{
    let n = hits.len();
    let mut bs: i32 = 0;
    let mut be: i32 = -1;
    let mut bc: i32 = 0;
    let mut cs: usize = 0;
    let mut cc: i32 = 0;
    let mut gap: usize = 0;
    let mut y: usize = 0;
    while y < n
        invariant
            n == hits.len(),
            n <= i32::MAX,
            y <= n,
            run_scan(hits@, y as int) == (RunScan {
                bs: bs as int,
                be: be as int,
                bc: bc as int,
                cs: cs as int,
                cc: cc as int,
                gap: gap as int,
            }),
        decreases n - y,
    {
        proof {
            lemma_run_bounds(hits@, y as int);
        }
        if hits[y] {
            if cc == 0 {
                cs = y;
            }
            cc = cc + 1;
            gap = 0;
        } else {
            gap = gap + 1;
            if gap > RUN_GAP {
                if cc > 0 && (y - gap - cs) as i32 > be - bs {
                    bs = cs as i32;
                    be = (y - gap) as i32 - 1;
                    bc = cc;
                }
                cc = 0;
            }
        }
        y = y + 1;
    }
    proof {
        lemma_run_bounds(hits@, n as int);
        lemma_longest_run_bounds(hits@);
    }
    if cc > 0 && (n - cs) as i32 > be - bs {
        bs = cs as i32;
        be = n as i32 - 1;
        bc = cc;
    }
    (bs, be, bc)
}

// ---------------------------------------------------------------- voting

/// Number of occurrences of `v` in `s`.
pub open spec fn count_of(s: Seq<i32>, v: i32) -> nat
    decreases s.len(),
{
    if s.len() == 0 {
        0
    } else {
        count_of(s.drop_last(), v) + if s.last() == v { 1nat } else { 0nat }
    }
}

/// The window after `v` arrives: `v` is appended and, if that overflows the
/// capacity, the oldest value leaves.
pub open spec fn slide(w: Seq<i32>, v: i32, cap: nat) -> Seq<i32> {
    if w.len() + 1 > cap {
        w.push(v).drop_first()
    } else {
        w.push(v)
    }
}

/// Votes needed out of a window of capacity `cap`: a strict majority.
pub open spec fn votes_needed(cap: nat) -> nat {
    cap / 2 + 1
}

/// Multi-frame vote: a value is accepted once it holds a strict majority of
/// the last `cap` values pushed.
pub struct ValueVoter {
    buf: Vec<i32>,
    cap: usize,
}

impl ValueVoter {
    #[verifier::type_invariant]
    spec fn inv(self) -> bool {
        &&& self.cap >= 1
        &&& self.buf.len() <= self.cap
    }

    /// The values currently in the window, oldest first.
    pub closed spec fn window(self) -> Seq<i32> {
        self.buf@
    }

    /// How many values the window holds at most.
    pub closed spec fn capacity(self) -> nat {
        self.cap as nat
    }

    pub fn new(cap: usize) -> (r: Self)
        ensures
            r.capacity() == (if cap >= 1 { cap as nat } else { 1nat }),
            r.window() == Seq::<i32>::empty(),
    {
        ValueVoter { buf: Vec::new(), cap: if cap >= 1 { cap } else { 1 } }
    }

    /// Number of occurrences of `v` in the window.
    fn count(&self, v: i32) -> (r: usize)
        ensures
            r == count_of(self.window(), v),
    {
        let mut cnt: usize = 0;
        let mut i: usize = 0;
        while i < self.buf.len()
            invariant
                i <= self.buf.len(),
                cnt == count_of(self.buf@.take(i as int), v),
                cnt <= i,
            decreases self.buf.len() - i,
        {
            proof {
                assert(self.buf@.take(i + 1).drop_last() =~= self.buf@.take(i as int));
            }
            if self.buf[i] == v {
                cnt = cnt + 1;
            }
            i = i + 1;
        }
        proof {
            assert(self.buf@.take(i as int) =~= self.buf@);
        }
        cnt
    }

    /// Pushes `v` and returns the value that holds a strict majority of the
    /// window, if one does.
    pub fn push(&mut self, v: i32) -> (r: Option<i32>)
        ensures
            final(self).capacity() == old(self).capacity(),
            final(self).window() == slide(old(self).window(), v, old(self).capacity()),
            r matches Some(c) ==> count_of(final(self).window(), c) >= votes_needed(
                final(self).capacity(),
            ),
            r matches Some(c) ==> forall|d: i32|
                count_of(final(self).window(), d) >= votes_needed(final(self).capacity()) ==> d == c,
            r is None ==> forall|c: i32|
                count_of(final(self).window(), c) < votes_needed(final(self).capacity()),
    {
        proof {
            use_type_invariant(&*self);
        }
        let mut buf: Vec<i32> = Vec::new();
        std::mem::swap(&mut buf, &mut self.buf);
        buf.push(v);
        if buf.len() > self.cap {
            buf.remove(0);
        }
        self.buf = buf;
        let need = self.cap / 2 + 1;
        let mut i: usize = 0;
        while i < self.buf.len()
            invariant
                i <= self.buf.len(),
                self.cap == old(self).cap,
                self.buf@ == slide(old(self).buf@, v, old(self).cap as nat),
                self.buf.len() <= self.cap,
                need == votes_needed(self.cap as nat),
                forall|j: int| 0 <= j < i ==> count_of(self.buf@, #[trigger] self.buf@[j]) < need,
            decreases self.buf.len() - i,
        {
            let c = self.buf[i];
            if self.count(c) >= need {
                proof {
                    assert forall|d: i32| count_of(self.buf@, d) >= need implies d == c by {
                        lemma_majority_unique(self.buf@, self.cap as nat, c, d);
                    }
                }
                return Some(c);
            }
            i = i + 1;
        }
        proof {
            assert forall|c: i32| count_of(self.buf@, c) < need by {
                if count_of(self.buf@, c) >= need {
                    let j = lemma_count_witness(self.buf@, c);
                    assert(count_of(self.buf@, self.buf@[j]) < need);
                }
            }
        }
        None
    }

    pub fn clear(&mut self)
        ensures
            final(self).capacity() == old(self).capacity(),
            final(self).window() == Seq::<i32>::empty(),
    {
        proof {
            use_type_invariant(&*self);
        }
        let mut buf: Vec<i32> = Vec::new();
        std::mem::swap(&mut buf, &mut self.buf);
        buf.clear();
        self.buf = buf;
    }
}

/// A value that occurs in `s` sits at some index of it.
proof fn lemma_count_witness(s: Seq<i32>, v: i32) -> (j: int)
    requires
        count_of(s, v) > 0,
    ensures
        0 <= j < s.len(),
        s[j] == v,
    decreases s.len(),
{
    if s.last() == v {
        s.len() - 1
    } else {
        let j = lemma_count_witness(s.drop_last(), v);
        j
    }
}

/// Two different values together occur at most as often as `s` is long.
proof fn lemma_count_pair(s: Seq<i32>, a: i32, b: i32)
    requires
        a != b,
    ensures
        count_of(s, a) + count_of(s, b) <= s.len(),
    decreases s.len(),
{
    if s.len() > 0 {
        lemma_count_pair(s.drop_last(), a, b);
    }
}

/// A window never holds two different majority values: whatever `push`
/// accepts is the only value with enough votes.
pub proof fn lemma_majority_unique(w: Seq<i32>, cap: nat, a: i32, b: i32)
    requires
        w.len() <= cap,
        count_of(w, a) >= votes_needed(cap),
        count_of(w, b) >= votes_needed(cap),
    ensures
        a == b,
{
    if a != b {
        lemma_count_pair(w, a, b);
    }
}

/// The window never grows past the capacity, and it always holds the most
/// recent values: sliding keeps the new value last and drops only the oldest.
pub proof fn lemma_slide_keeps_recent(w: Seq<i32>, v: i32, cap: nat)
    requires
        cap >= 1,
        w.len() <= cap,
    ensures
        slide(w, v, cap).len() <= cap,
        slide(w, v, cap).last() == v,
        slide(w, v, cap).drop_last() == (if w.len() + 1 > cap { w.drop_first() } else { w }),
{
    if w.len() + 1 > cap {
        assert(w.push(v).drop_first().drop_last() =~= w.drop_first());
    } else {
        assert(w.push(v).drop_last() =~= w);
    }
}

// ---------------------------------------------------------------- camera frame

/// The planes of a minimap that the camera-frame search reads, all of the
/// same size: the 3x3 Gaussian-blurred grayscale image and the three HSV
/// channels (OpenCV's 8-bit HSV, hue in 0..180).
pub struct MinimapPlanes {
    pub gray: Vec<Vec<u8>>,
    pub hue: Vec<Vec<u8>>,
    pub sat: Vec<Vec<u8>>,
    pub val: Vec<Vec<u8>>,
}

/// Largest side accepted; beyond it the run statistics would overflow `i32`.
pub const MAX_SIDE: usize = 20_000_000;

impl MinimapPlanes {
    pub open spec fn width(&self) -> int {
        if self.gray@.len() > 0 { self.gray@[0]@.len() as int } else { 0 }
    }

    pub open spec fn height(&self) -> int {
        self.gray@.len() as int
    }

    /// All four planes are rectangular and of the same size.
    pub open spec fn wf(&self) -> bool {
        let (w, h) = (self.width(), self.height());
        &&& is_plane(self.gray@, w, h)
        &&& is_plane(self.hue@, w, h)
        &&& is_plane(self.sat@, w, h)
        &&& is_plane(self.val@, w, h)
        &&& w <= MAX_SIDE
        &&& h <= MAX_SIDE
    }
}

/// A candidate vertical edge line of the camera frame: its column, its hue
/// (`-1` for a bright line, whose hue is not checked) and the longest run of
/// edge pixels in that column.
#[derive(Clone, Copy, Debug, PartialEq, Eq, Structural)]
pub struct LineFeat {
    pub pos: i32,
    pub hue: i32,
    pub run_s: i32,
    pub run_e: i32,
    pub run_cnt: i32,
}

/// Gray-level jump between columns `x` and `x + 2` that counts as an edge.
pub const EDGE_T: i32 = 7;

/// Column `x` of row `y` sits on a vertical edge.
pub open spec fn edge_at(g: Seq<Vec<u8>>, w: int, y: int, x: int) -> bool {
    &&& 0 <= x
    &&& x + 2 < w
    &&& {
        let d = px(g, y, x + 2) - px(g, y, x);
        d > EDGE_T || -d > EDGE_T
    }
}

/// An edge lies in columns `x - 1 ..= x + 1` of row `y`.
pub open spec fn band_at(g: Seq<Vec<u8>>, w: int, y: int, x: int) -> bool {
    (x >= 1 && edge_at(g, w, y, x - 1)) || edge_at(g, w, y, x) || edge_at(g, w, y, x + 1)
}

/// Hue histogram bin (5 hue units per bin, 36 bins).
pub open spec fn hue_bin(v: int) -> int {
    if v / 5 <= 35 { v / 5 } else { 35 }
}

/// Row `y` of column `x` counted by statistic `kind`: 0 = on the edge band,
/// 1 = on the band and saturated, 2 = on the band, saturated and of hue bin `b`.
pub open spec fn col_pred(p: &MinimapPlanes, x: int, y: int, kind: int, b: int) -> bool {
    let on = band_at(p.gray@, p.width(), y, x);
    let sat = px(p.sat@, y, x) > 70;
    if kind == 0 {
        on
    } else if kind == 1 {
        on && sat
    } else {
        on && sat && hue_bin(px(p.hue@, y, x)) == b
    }
}

/// Number of rows `y < k` of column `x` counted by `col_pred`.
pub open spec fn col_count(p: &MinimapPlanes, x: int, k: int, kind: int, b: int) -> int
    decreases k,
{
    if k <= 0 {
        0
    } else {
        col_count(p, x, k - 1, kind, b) + if col_pred(p, x, k - 1, kind, b) { 1int } else { 0int }
    }
}

pub open spec fn min_run_spec(h: int) -> int {
    if h * 10 / 100 >= 12 { h * 10 / 100 } else { 12 }
}

pub open spec fn bright_hits(p: &MinimapPlanes, x: int) -> Seq<bool> {
    Seq::new(p.height() as nat, |y: int| band_at(p.gray@, p.width(), y, x) && px(p.val@, y, x) > 168)
}

pub open spec fn band_hits(p: &MinimapPlanes, x: int) -> Seq<bool> {
    Seq::new(p.height() as nat, |y: int| band_at(p.gray@, p.width(), y, x))
}

/// Column `x` as a bright-line candidate: a long enough run of bright edge
/// pixels that is at least 40% filled.
pub open spec fn bright_feat(p: &MinimapPlanes, x: int) -> Option<LineFeat> {
    let (bs, be, bc) = longest_run_spec(bright_hits(p, x));
    if be - bs + 1 >= min_run_spec(p.height()) && bc * 100 >= (be - bs + 1) * 40 {
        Some(LineFeat { pos: x as i32, hue: -1i32, run_s: bs as i32, run_e: be as i32, run_cnt: bc as i32 })
    } else {
        None
    }
}

/// Index of the last largest entry among the first `k` of `s`.
pub open spec fn argmax_last(s: Seq<int>, k: int) -> int
    decreases k,
{
    if k <= 1 {
        0
    } else {
        let j = argmax_last(s, k - 1);
        if s[k - 1] >= s[j] { k - 1 } else { j }
    }
}

pub open spec fn hue_hist(p: &MinimapPlanes, x: int) -> Seq<int> {
    Seq::new(36, |b: int| col_count(p, x, p.height(), 2, b))
}

/// Column `x` as a soft (tinted) frame-edge candidate: a long enough run of
/// edge pixels, at least 18% filled, mostly saturated, with one dominant hue.
pub open spec fn soft_feat(p: &MinimapPlanes, x: int) -> Option<LineFeat> {
    let (ss, se, sc) = longest_run_spec(band_hits(p, x));
    let n_on = col_count(p, x, p.height(), 0, 0);
    let n_sat = col_count(p, x, p.height(), 1, 0);
    if se - ss + 1 < min_run_spec(p.height()) || sc * 100 < (se - ss + 1) * 18 || n_sat < n_on / 2 {
        None
    } else {
        let dom = argmax_last(hue_hist(p, x), 36);
        if hue_hist(p, x)[dom] * 100 < n_sat * 45 {
            None
        } else {
            Some(LineFeat { pos: x as i32, hue: (dom * 5) as i32, run_s: ss as i32, run_e: se as i32, run_cnt: sc as i32 })
        }
    }
}

/// Candidates among columns `0..k`, left to right.
pub open spec fn feats_upto(p: &MinimapPlanes, k: int, soft: bool) -> Seq<LineFeat>
    decreases k,
{
    if k <= 0 {
        Seq::empty()
    } else {
        let prev = feats_upto(p, k - 1, soft);
        match if soft { soft_feat(p, k - 1) } else { bright_feat(p, k - 1) } {
            Some(f) => prev.push(f),
            None => prev,
        }
    }
}

/// Two neighbouring candidates describe the same line.
pub open spec fn same_line(f: LineFeat, l: LineFeat) -> bool {
    f.pos - l.pos <= 6 && (f.hue < 0 || l.hue < 0 || hue_dist_spec(f.hue as int, l.hue as int) <= 20)
}

/// Merges runs of neighbouring candidates, keeping the one with most edge
/// pixels (the earlier one on a tie).
pub open spec fn dedupe_spec(s: Seq<LineFeat>) -> Seq<LineFeat>
    decreases s.len(),
{
    if s.len() == 0 {
        s
    } else {
        let out = dedupe_spec(s.drop_last());
        let f = s.last();
        if out.len() > 0 && same_line(f, out.last()) {
            if f.run_cnt > out.last().run_cnt {
                out.update(out.len() - 1, f)
            } else {
                out
            }
        } else {
            out.push(f)
        }
    }
}

/// A candidate that the frame search can pair: inside the image, with a run
/// of at least 12 rows.
pub open spec fn feat_ok(f: LineFeat, w: int, h: int) -> bool {
    &&& 0 <= f.pos < w
    &&& -1 <= f.hue <= 175
    &&& 0 <= f.run_s
    &&& f.run_e < h
    &&& f.run_e - f.run_s >= 11
    &&& 0 <= f.run_cnt <= h
}

pub open spec fn feats_ok(s: Seq<LineFeat>, w: int, h: int) -> bool {
    forall|i: int| 0 <= i < s.len() ==> feat_ok(#[trigger] s[i], w, h)
}

proof fn lemma_dedupe_ok(s: Seq<LineFeat>, w: int, h: int)
    requires
        feats_ok(s, w, h),
    ensures
        feats_ok(dedupe_spec(s), w, h),
    decreases s.len(),
{
    if s.len() > 0 {
        assert(feats_ok(s.drop_last(), w, h)) by {
            assert forall|i: int| 0 <= i < s.drop_last().len() implies feat_ok(
                #[trigger] s.drop_last()[i],
                w,
                h,
            ) by {
                assert(s.drop_last()[i] == s[i]);
            }
        }
        lemma_dedupe_ok(s.drop_last(), w, h);
        assert(feat_ok(s[s.len() - 1], w, h));
    }
}

/// The edge map: `ecol[y][x]` holds `edge_at` of the grayscale plane.
pub struct ColScan {
    pub w: i32,
    pub h: i32,
    pub ecol: Vec<Vec<bool>>,
    pub bright: Vec<LineFeat>,
    pub soft: Vec<LineFeat>,
}

impl ColScan {
    /// This scan is the one `scan_columns` computes from `p`.
    pub open spec fn of(&self, p: &MinimapPlanes) -> bool {
        &&& self.w == p.width()
        &&& self.h == p.height()
        &&& self.ecol@.len() == self.h
        &&& forall|y: int| 0 <= y < self.h ==> #[trigger] self.ecol@[y]@.len() == self.w
        &&& forall|y: int, x: int|
            0 <= y < self.h && 0 <= x < self.w ==> #[trigger] self.ecol@[y]@[x] == edge_at(
                p.gray@,
                self.w as int,
                y,
                x,
            )
        &&& self.bright@ == dedupe_spec(feats_upto(p, self.w as int, false))
        &&& self.soft@ == dedupe_spec(feats_upto(p, self.w as int, true))
        &&& feats_ok(self.bright@, self.w as int, self.h as int)
        &&& feats_ok(self.soft@, self.w as int, self.h as int)
    }
}

proof fn lemma_col_count_bound(p: &MinimapPlanes, x: int, k: int, kind: int, b: int)
    ensures
        0 <= col_count(p, x, k, kind, b) <= (if k >= 0 { k } else { 0 }),
    decreases k,
{
    if k > 0 {
        lemma_col_count_bound(p, x, k - 1, kind, b);
    }
}

proof fn lemma_argmax_bound(s: Seq<int>, k: int)
    ensures
        0 <= argmax_last(s, k) < (if k >= 1 { k } else { 1 }),
    decreases k,
{
    if k > 1 {
        lemma_argmax_bound(s, k - 1);
    }
}

/// Edge row `y` of the grayscale plane.
fn edge_row(p: &MinimapPlanes, y: usize) -> (r: Vec<bool>)
    requires
        p.wf(),
        y < p.height(),
    ensures
        r@.len() == p.width(),
        forall|x: int| 0 <= x < p.width() ==> #[trigger] r@[x] == edge_at(p.gray@, p.width(), y as int, x),
{
    let row = &p.gray[y];
    let w = row.len();
    let mut out: Vec<bool> = Vec::new();
    let mut x: usize = 0;
    while x < w
        invariant
            p.wf(),
            y < p.height(),
            row@ == p.gray@[y as int]@,
            w == p.width(),
            x <= w,
            out@.len() == x,
            forall|i: int| 0 <= i < x ==> #[trigger] out@[i] == edge_at(p.gray@, w as int, y as int, i),
        decreases w - x,
    {
        let e = if x + 2 < w {
            let d = row[x + 2] as i32 - row[x] as i32;
            d > EDGE_T || -d > EDGE_T
        } else {
            false
        };
        out.push(e);
        x = x + 1;
    }
    out
}

/// The edge band at `(y, x)`, read from the edge map.
fn band(ecol: &Vec<Vec<bool>>, w: usize, y: usize, x: usize, Ghost(p): Ghost<&MinimapPlanes>) -> (r: bool)
    requires
        p.wf(),
        w == p.width(),
        y < p.height(),
        x < w,
        ecol@.len() == p.height(),
        forall|yy: int| 0 <= yy < p.height() ==> #[trigger] ecol@[yy]@.len() == w,
        forall|yy: int, xx: int|
            0 <= yy < p.height() && 0 <= xx < w ==> #[trigger] ecol@[yy]@[xx] == edge_at(p.gray@, w as int, yy, xx),
    ensures
        r == band_at(p.gray@, w as int, y as int, x as int),
{
    let row = &ecol[y];
    let a = x >= 1 && row[x - 1];
    let b = row[x];
    let c = x + 1 < w && row[x + 1];
    a || b || c
}

/// Which rows of column `x` are hits: on the edge band and, for `bright`,
/// also brighter than 168.
fn column_hits(p: &MinimapPlanes, ecol: &Vec<Vec<bool>>, x: usize, bright: bool) -> (r: Vec<bool>)
    requires
        p.wf(),
        x < p.width(),
        ecol@.len() == p.height(),
        forall|yy: int| 0 <= yy < p.height() ==> #[trigger] ecol@[yy]@.len() == p.width(),
        forall|yy: int, xx: int|
            0 <= yy < p.height() && 0 <= xx < p.width() ==> #[trigger] ecol@[yy]@[xx] == edge_at(p.gray@, p.width(), yy, xx),
    ensures
        r@ == (if bright { bright_hits(p, x as int) } else { band_hits(p, x as int) }),
{
    let h = p.gray.len();
    let w = p.gray[0].len();
    let mut out: Vec<bool> = Vec::new();
    let mut y: usize = 0;
    while y < h
        invariant
            p.wf(),
            h == p.height(),
            w == p.width(),
            x < w,
            y <= h,
            ecol@.len() == p.height(),
            forall|yy: int| 0 <= yy < p.height() ==> #[trigger] ecol@[yy]@.len() == p.width(),
            forall|yy: int, xx: int|
                0 <= yy < p.height() && 0 <= xx < p.width() ==> #[trigger] ecol@[yy]@[xx] == edge_at(p.gray@, p.width(), yy, xx),
            out@.len() == y,
            forall|i: int| 0 <= i < y ==> #[trigger] out@[i] == (if bright { bright_hits(p, x as int)[i] } else { band_hits(p, x as int)[i] }),
        decreases h - y,
    {
        let on = band(ecol, w, y, x, Ghost(p));
        let hit = if bright { on && p.val[y][x] > 168 } else { on };
        out.push(hit);
        y = y + 1;
    }
    proof {
        if bright {
            assert(out@ =~= bright_hits(p, x as int));
        } else {
            assert(out@ =~= band_hits(p, x as int));
        }
    }
    out
}

/// The bright-line candidate of column `x`, if any.
fn bright_feat_of(p: &MinimapPlanes, ecol: &Vec<Vec<bool>>, x: usize, min_run: i32) -> (r: Option<LineFeat>)
    requires
        p.wf(),
        x < p.width(),
        min_run == min_run_spec(p.height()),
        ecol@.len() == p.height(),
        forall|yy: int| 0 <= yy < p.height() ==> #[trigger] ecol@[yy]@.len() == p.width(),
        forall|yy: int, xx: int|
            0 <= yy < p.height() && 0 <= xx < p.width() ==> #[trigger] ecol@[yy]@[xx] == edge_at(p.gray@, p.width(), yy, xx),
    ensures
        r == bright_feat(p, x as int),
        r matches Some(f) ==> feat_ok(f, p.width(), p.height()),
{
    let hits = column_hits(p, ecol, x, true);
    let (bs, be, bc) = longest_run(&hits);
    if be - bs + 1 >= min_run && bc * 100 >= (be - bs + 1) * 40 {
        Some(LineFeat { pos: x as i32, hue: -1, run_s: bs, run_e: be, run_cnt: bc })
    } else {
        None
    }
}

/// The soft-edge candidate of column `x`, if any.
fn soft_feat_of(p: &MinimapPlanes, ecol: &Vec<Vec<bool>>, x: usize, min_run: i32) -> (r: Option<LineFeat>)
    requires
        p.wf(),
        x < p.width(),
        min_run == min_run_spec(p.height()),
        ecol@.len() == p.height(),
        forall|yy: int| 0 <= yy < p.height() ==> #[trigger] ecol@[yy]@.len() == p.width(),
        forall|yy: int, xx: int|
            0 <= yy < p.height() && 0 <= xx < p.width() ==> #[trigger] ecol@[yy]@[xx] == edge_at(p.gray@, p.width(), yy, xx),
    ensures
        r == soft_feat(p, x as int),
        r matches Some(f) ==> feat_ok(f, p.width(), p.height()),
{
    let h = p.gray.len();
    let w = p.gray[0].len();
    let mut hist: Vec<i32> = Vec::new();
    let mut b: usize = 0;
    while b < 36
        invariant
            b <= 36,
            hist@.len() == b,
            forall|i: int| 0 <= i < b ==> #[trigger] hist@[i] == 0,
        decreases 36 - b,
    {
        hist.push(0);
        b = b + 1;
    }
    let mut n_on: i32 = 0;
    let mut n_sat: i32 = 0;
    let mut y: usize = 0;
    while y < h
        invariant
            p.wf(),
            h == p.height(),
            w == p.width(),
            x < w,
            y <= h,
            ecol@.len() == p.height(),
            forall|yy: int| 0 <= yy < p.height() ==> #[trigger] ecol@[yy]@.len() == p.width(),
            forall|yy: int, xx: int|
                0 <= yy < p.height() && 0 <= xx < p.width() ==> #[trigger] ecol@[yy]@[xx] == edge_at(p.gray@, p.width(), yy, xx),
            hist@.len() == 36,
            n_on == col_count(p, x as int, y as int, 0, 0),
            n_sat == col_count(p, x as int, y as int, 1, 0),
            forall|i: int| 0 <= i < 36 ==> #[trigger] hist@[i] == col_count(p, x as int, y as int, 2, i),
        decreases h - y,
    {
        proof {
            lemma_col_count_bound(p, x as int, y as int, 0, 0);
            lemma_col_count_bound(p, x as int, y as int, 1, 0);
            assert forall|i: int| 0 <= i < 36 implies #[trigger] hist@[i] <= y by {
                lemma_col_count_bound(p, x as int, y as int, 2, i);
            }
        }
        if band(ecol, w, y, x, Ghost(p)) {
            n_on = n_on + 1;
            if p.sat[y][x] > 70 {
                n_sat = n_sat + 1;
                let v = p.hue[y][x] as usize / 5;
                let bin = if v <= 35 { v } else { 35 };
                let c = hist[bin];
                hist.set(bin, c + 1);
            }
        }
        proof {
            assert forall|i: int| 0 <= i < 36 implies #[trigger] hist@[i] == col_count(p, x as int, y + 1, 2, i) by {
                assert(col_count(p, x as int, y + 1, 2, i) == col_count(p, x as int, y as int, 2, i)
                    + if col_pred(p, x as int, y as int, 2, i) { 1int } else { 0int });
            }
        }
        y = y + 1;
    }
    let hits = column_hits(p, ecol, x, false);
    let (ss, se, sc) = longest_run(&hits);
    proof {
        lemma_col_count_bound(p, x as int, h as int, 0, 0);
        assert(n_on == col_count(p, x as int, p.height(), 0, 0));
        assert(n_sat == col_count(p, x as int, p.height(), 1, 0));
        assert((ss as int, se as int, sc as int) == longest_run_spec(band_hits(p, x as int)));
    }
    if se - ss + 1 < min_run || sc * 100 < (se - ss + 1) * 18 || n_sat < n_on / 2 {
        return None;
    }
    let ghost hh = hue_hist(p, x as int);
    assert forall|i: int| 0 <= i < 36 implies #[trigger] hist@[i] == hh[i] by {}
    proof {
        lemma_col_count_bound(p, x as int, h as int, 1, 0);
    }
    let mut dom: usize = 0;
    let mut k: usize = 1;
    while k < 36
        invariant
            1 <= k <= 36,
            hist@.len() == 36,
            hh == hue_hist(p, x as int),
            forall|i: int| 0 <= i < 36 ==> #[trigger] hist@[i] == hh[i],
            dom == argmax_last(hh, k as int),
            dom < k,
        decreases 36 - k,
    {
        if hist[k] >= hist[dom] {
            dom = k;
        }
        k = k + 1;
    }
    let mx = hist[dom];
    proof {
        lemma_col_count_bound(p, x as int, h as int, 2, dom as int);
    }
    if mx * 100 < n_sat * 45 {
        return None;
    }
    Some(LineFeat { pos: x as i32, hue: dom as i32 * 5, run_s: ss, run_e: se, run_cnt: sc })
}

/// Merges neighbouring candidates of the same line (see `dedupe_spec`).
fn dedupe(feats: Vec<LineFeat>, Ghost(w): Ghost<int>, Ghost(h): Ghost<int>) -> (r: Vec<LineFeat>)
    requires
        feats_ok(feats@, w, h),
    ensures
        r@ == dedupe_spec(feats@),
{
    let mut out: Vec<LineFeat> = Vec::new();
    let mut i: usize = 0;
    proof {
        assert(feats@.take(0) =~= Seq::<LineFeat>::empty());
    }
    while i < feats.len()
        invariant
            i <= feats.len(),
            feats_ok(feats@, w, h),
            out@ == dedupe_spec(feats@.take(i as int)),
        decreases feats.len() - i,
    {
        let f = feats[i];
        proof {
            assert(feats@.take(i + 1).drop_last() =~= feats@.take(i as int));
            assert(feats@.take(i + 1).last() == f);
            lemma_dedupe_ok(feats@.take(i as int), w, h);
            assert(feat_ok(feats@[i as int], w, h));
        }
        let n = out.len();
        let merge = if n > 0 {
            let l = out[n - 1];
            proof {
                assert(feat_ok(out@[n - 1], w, h));
            }
            f.pos - l.pos <= 6 && (f.hue < 0 || l.hue < 0 || hue_dist(f.hue, l.hue) <= 20)
        } else {
            false
        };
        if merge {
            let l = out[n - 1];
            if f.run_cnt > l.run_cnt {
                out.set(n - 1, f);
            }
        } else {
            out.push(f);
        }
        i = i + 1;
    }
    proof {
        assert(feats@.take(i as int) =~= feats@);
    }
    out
}

/// Edge map and deduplicated line candidates of the minimap; `None` when it
/// is smaller than 30 pixels either way.
pub fn scan_columns(p: &MinimapPlanes) -> (r: Option<ColScan>)
    requires
        p.wf(),
    ensures
        r is None <==> (p.width() < 30 || p.height() < 30),
        r matches Some(sc) ==> sc.of(p),
{
    let h = p.gray.len();
    if h < 30 {
        return None;
    }
    let w = p.gray[0].len();
    if w < 30 {
        return None;
    }
    let mut ecol: Vec<Vec<bool>> = Vec::new();
    let mut y: usize = 0;
    while y < h
        invariant
            p.wf(),
            h == p.height(),
            w == p.width(),
            y <= h,
            ecol@.len() == y,
            forall|yy: int| 0 <= yy < y ==> #[trigger] ecol@[yy]@.len() == w,
            forall|yy: int, xx: int|
                0 <= yy < y && 0 <= xx < w ==> #[trigger] ecol@[yy]@[xx] == edge_at(p.gray@, w as int, yy, xx),
        decreases h - y,
    {
        let row = edge_row(p, y);
        ecol.push(row);
        y = y + 1;
    }
    let hi = h as i32;
    let min_run = if hi * 10 / 100 >= 12 { hi * 10 / 100 } else { 12 };
    let mut bright_cols: Vec<LineFeat> = Vec::new();
    let mut soft_cols: Vec<LineFeat> = Vec::new();
    let mut x: usize = 0;
    while x < w
        invariant
            p.wf(),
            h == p.height(),
            w == p.width(),
            30 <= h,
            30 <= w,
            x <= w,
            min_run == min_run_spec(p.height()),
            ecol@.len() == p.height(),
            forall|yy: int| 0 <= yy < p.height() ==> #[trigger] ecol@[yy]@.len() == p.width(),
            forall|yy: int, xx: int|
                0 <= yy < p.height() && 0 <= xx < p.width() ==> #[trigger] ecol@[yy]@[xx] == edge_at(p.gray@, p.width(), yy, xx),
            bright_cols@ == feats_upto(p, x as int, false),
            soft_cols@ == feats_upto(p, x as int, true),
            feats_ok(bright_cols@, w as int, h as int),
            feats_ok(soft_cols@, w as int, h as int),
        decreases w - x,
    {
        let bf = bright_feat_of(p, &ecol, x, min_run);
        match bf {
            Some(f) => bright_cols.push(f),
            None => {},
        }
        let sf = soft_feat_of(p, &ecol, x, min_run);
        match sf {
            Some(f) => soft_cols.push(f),
            None => {},
        }
        x = x + 1;
    }
    let bright = dedupe(bright_cols, Ghost(w as int), Ghost(h as int));
    let soft = dedupe(soft_cols, Ghost(w as int), Ghost(h as int));
    proof {
        lemma_dedupe_ok(feats_upto(p, w as int, false), w as int, h as int);
        lemma_dedupe_ok(feats_upto(p, w as int, true), w as int, h as int);
    }
    Some(ColScan { w: w as i32, h: h as i32, ecol, bright, soft })
}

// ------------------------------------------------- pairing the frame's edges

/// Rows `y1 <= y < k` in which column `x` is on the edge band.
pub open spec fn band_rows(p: &MinimapPlanes, x: int, y1: int, k: int) -> int
    decreases k - y1,
{
    if k <= y1 {
        0
    } else {
        band_rows(p, x, y1, k - 1) + if band_at(p.gray@, p.width(), k - 1, x) { 1int } else { 0int }
    }
}

/// Saturated pixels of row `y` in columns `xa <= x < k`; with `only_hue`, only
/// those whose hue is within 12 of `he`.
pub open spec fn row_cells(p: &MinimapPlanes, y: int, xa: int, k: int, he: int, only_hue: bool) -> int
    decreases k - xa,
{
    if k <= xa {
        0
    } else {
        row_cells(p, y, xa, k - 1, he, only_hue) + if px(p.sat@, y, k - 1) > 70 && (!only_hue
            || hue_dist_spec(px(p.hue@, y, k - 1), he) <= 12) {
            1int
        } else {
            0int
        }
    }
}

/// `row_cells` summed over rows `y1 <= y < k`, columns `xa..=xb`.
pub open spec fn strip_cells(p: &MinimapPlanes, xa: int, xb: int, y1: int, k: int, he: int, only_hue: bool) -> int
    decreases k - y1,
{
    if k <= y1 {
        0
    } else {
        strip_cells(p, xa, xb, y1, k - 1, he, only_hue) + row_cells(p, k - 1, xa, xb + 1, he, only_hue)
    }
}

/// `(m, n)`: of the `n` saturated pixels in the strip of columns `xa..=xb`
/// (clipped to the image) and rows `y1..=y2`, `m` have a hue within 12 of
/// `he`. A strip clipped to less than two columns counts nothing.
pub open spec fn frac_spec(p: &MinimapPlanes, xa: int, xb: int, y1: int, y2: int, he: int) -> (int, int) {
    let a = if xa >= 0 { xa } else { 0 };
    let b = if xb <= p.width() - 1 { xb } else { p.width() - 1 };
    if a >= b {
        (0, 0)
    } else {
        (strip_cells(p, a, b, y1, y2 + 1, he, true), strip_cells(p, a, b, y1, y2 + 1, he, false))
    }
}

/// The fraction `m / n` of `f = (m, n)` in binary64 (0 when `n == 0`).
pub open spec fn frac_value(f: (int, int)) -> (int, nat) {
    if f.1 == 0 { (0, 0) } else { frac_dbl(f.0, f.1) }
}

/// The tint step `f - g` of two fractions, taken in binary64 as the
/// difference of the two rounded quotients, is below 8/100.
pub open spec fn step_below(f: (int, int), g: (int, int)) -> bool {
    step_below_dbl(frac_value(f), frac_value(g))
}

/// The support `s / ov` of an edge pair in binary64.
pub open spec fn support(s: int, ov: int) -> (int, nat) {
    frac_dbl(s, ov)
}

/// The score `width * overlap * support * support` of an edge pair,
/// multiplied left to right in binary64.
pub open spec fn score_of(wd: int, ov: int, s: int) -> (int, nat) {
    mul_dbl(mul_dbl((wd * ov, 0), support(s, ov)), support(s, ov))
}

/// A candidate frame: its score `score_m / 2^score_k` and its corners.
#[derive(Clone, Copy)]
pub struct Cand {
    pub score_m: u64,
    pub score_k: u32,
    pub x1: i32,
    pub y1: i32,
    pub x2: i32,
    pub y2: i32,
}

pub open spec fn min_int(a: int, b: int) -> int {
    if a <= b { a } else { b }
}

pub open spec fn max_int(a: int, b: int) -> int {
    if a >= b { a } else { b }
}

/// The frame spanned by the left edge `a` and the right edge `b`, if the pair
/// passes every test: a width of 15%..80% of the image, matching hues, rows
/// that overlap by at least 40% of the shorter run, edge support on at least
/// 22% of the overlap on both sides, and, for tinted edges, a tint step of at
/// least 8% across each edge. Its score is `width * overlap * support^2`,
/// where `support` is the smaller edge coverage of the overlapping rows,
/// computed in binary64 (see `score_of`).
pub open spec fn pair_cand(p: &MinimapPlanes, a: LineFeat, b: LineFeat) -> Option<Cand> {
    let w = p.width();
    let wd = b.pos - a.pos;
    let ov_s = max_int(a.run_s as int, b.run_s as int);
    let ov_e = min_int(a.run_e as int, b.run_e as int);
    let ov = ov_e - ov_s + 1;
    let s = min_int(band_rows(p, a.pos as int, ov_s, ov_e + 1), band_rows(p, b.pos as int, ov_s, ov_e + 1));
    let he = a.hue as int;
    if wd < w * 15 / 100 || wd > w * 80 / 100 {
        None
    } else if a.hue >= 0 && b.hue >= 0 && hue_dist_spec(a.hue as int, b.hue as int) > 18 {
        None
    } else if ov * 100 < min_int(a.run_e - a.run_s, b.run_e - b.run_s) * 40 {
        None
    } else if s * 100 < 22 * ov {
        None
    } else if a.hue >= 0 && (step_below(
        frac_spec(p, a.pos + 2, a.pos + 9, ov_s, ov_e, he),
        frac_spec(p, a.pos - 9, a.pos - 2, ov_s, ov_e, he),
    ) || step_below(
        frac_spec(p, b.pos - 9, b.pos - 2, ov_s, ov_e, he),
        frac_spec(p, b.pos + 2, b.pos + 9, ov_s, ov_e, he),
    )) {
        None
    } else {
        Some(
            Cand {
                score_m: score_of(wd as int, ov, s).0 as u64,
                score_k: score_of(wd as int, ov, s).1 as u32,
                x1: a.pos,
                y1: ov_s as i32,
                x2: b.pos,
                y2: ov_e as i32,
            },
        )
    }
}

/// `c` keeps the lead: the first candidate, or one with a strictly higher score.
pub open spec fn pick(acc: Option<Cand>, c: Option<Cand>) -> Option<Cand> {
    match c {
        None => acc,
        Some(c) => match acc {
            None => Some(c),
            Some(b) => if dbl_gt((c.score_m as int, c.score_k as nat), (b.score_m as int, b.score_k as nat)) {
                Some(c)
            } else {
                acc
            },
        },
    }
}

/// Best candidate after also trying the pairs `(i, j'), j <= j' < len`.
pub open spec fn best_row(p: &MinimapPlanes, l: Seq<LineFeat>, i: int, j: int, acc: Option<Cand>) -> Option<Cand>
    decreases l.len() - j,
{
    if j >= l.len() {
        acc
    } else {
        best_row(p, l, i, j + 1, pick(acc, pair_cand(p, l[i], l[j])))
    }
}

/// Best candidate after also trying all pairs `(i', j'), i <= i' < j'`.
pub open spec fn best_all(p: &MinimapPlanes, l: Seq<LineFeat>, i: int, acc: Option<Cand>) -> Option<Cand>
    decreases l.len() - i,
{
    if i >= l.len() {
        acc
    } else {
        best_all(p, l, i + 1, best_row(p, l, i, i + 1, acc))
    }
}

/// The camera frame: the best-scoring pair of edges, bright lines first,
/// then tinted edges, as a rectangle spanning the pair's overlapping rows.
pub open spec fn camera_frame_spec(p: &MinimapPlanes) -> Option<Rect> {
    if p.width() < 30 || p.height() < 30 {
        None
    } else {
        let bright = dedupe_spec(feats_upto(p, p.width(), false));
        let soft = dedupe_spec(feats_upto(p, p.width(), true));
        match best_all(p, soft, 0, best_all(p, bright, 0, None)) {
            None => None,
            Some(c) => Some(Rect { x: c.x1, y: c.y1, width: (c.x2 - c.x1) as i32, height: (c.y2 - c.y1) as i32 }),
        }
    }
}

proof fn lemma_band_rows_bound(p: &MinimapPlanes, x: int, y1: int, k: int)
    ensures
        0 <= band_rows(p, x, y1, k) <= (if k >= y1 { k - y1 } else { 0 }),
    decreases k - y1,
{
    if k > y1 {
        lemma_band_rows_bound(p, x, y1, k - 1);
    }
}

proof fn lemma_row_cells_bound(p: &MinimapPlanes, y: int, xa: int, k: int, he: int)
    ensures
        0 <= row_cells(p, y, xa, k, he, true) <= row_cells(p, y, xa, k, he, false),
        row_cells(p, y, xa, k, he, false) <= (if k >= xa { k - xa } else { 0 }),
    decreases k - xa,
{
    if k > xa {
        lemma_row_cells_bound(p, y, xa, k - 1, he);
    }
}

proof fn lemma_strip_cells_bound(p: &MinimapPlanes, xa: int, xb: int, y1: int, k: int, he: int)
    requires
        0 <= xa <= xb < MAX_SIDE,
    ensures
        0 <= strip_cells(p, xa, xb, y1, k, he, true) <= strip_cells(p, xa, xb, y1, k, he, false),
        strip_cells(p, xa, xb, y1, k, he, false) <= (if k >= y1 { (k - y1) * MAX_SIDE } else { 0 }),
    decreases k - y1,
{
    if k > y1 {
        lemma_strip_cells_bound(p, xa, xb, y1, k - 1, he);
        lemma_row_cells_bound(p, k - 1, xa, xb + 1, he);
    }
}

/// Rows `y1..=y2` in which column `x` is on the edge band.
fn cov(scan: &ColScan, x: i32, y1: i32, y2: i32, Ghost(p): Ghost<&MinimapPlanes>) -> (r: i32)
    requires
        p.wf(),
        scan.of(p),
        0 <= x < scan.w,
        0 <= y1,
        y2 < scan.h,
    ensures
        r == band_rows(p, x as int, y1 as int, y2 + 1),
{
    let mut n: i32 = 0;
    let mut y: i32 = y1;
    if y1 > y2 {
        return 0;
    }
    while y <= y2
        invariant
            p.wf(),
            scan.of(p),
            0 <= x < scan.w,
            0 <= y1 <= y <= y2 + 1,
            y2 < scan.h,
            n == band_rows(p, x as int, y1 as int, y as int),
        decreases y2 + 1 - y,
    {
        proof {
            lemma_band_rows_bound(p, x as int, y1 as int, y as int);
        }
        if band(&scan.ecol, scan.w as usize, y as usize, x as usize, Ghost(p)) {
            n = n + 1;
        }
        y = y + 1;
    }
    n
}

/// Saturated pixels of row `y`, columns `xa..=xb`, counted as in `row_cells`.
fn row_count(p: &MinimapPlanes, y: usize, xa: usize, xb: usize, he: i32, only_hue: bool) -> (r: i64)
    requires
        p.wf(),
        y < p.height(),
        xa <= xb < p.width(),
        0 <= he <= 175,
    ensures
        r == row_cells(p, y as int, xa as int, xb + 1, he as int, only_hue),
        0 <= r <= xb + 1 - xa,
{
    let mut n: i64 = 0;
    let mut x: usize = xa;
    while x <= xb
        invariant
            p.wf(),
            y < p.height(),
            0 <= n <= x - xa,
            xa <= x <= xb + 1,
            xb < p.width(),
            0 <= he <= 175,
            n == row_cells(p, y as int, xa as int, x as int, he as int, only_hue),
        decreases xb + 1 - x,
    {
        proof {
            lemma_row_cells_bound(p, y as int, xa as int, x as int, he as int);
        }
        if p.sat[y][x] > 70 && (!only_hue || hue_dist(p.hue[y][x] as i32, he) <= 12) {
            n = n + 1;
        }
        x = x + 1;
    }
    n
}

/// `(m, n)` of `frac_spec`: saturated pixels of the strip and those of them
/// whose hue matches `he`.
fn frac_match(p: &MinimapPlanes, xa: i32, xb: i32, y1: i32, y2: i32, he: i32) -> (r: (i64, i64))
    requires
        p.wf(),
        p.height() >= 1,
        0 <= y1,
        y2 < p.height(),
        0 <= he <= 175,
        xa > i32::MIN,
    ensures
        (r.0 as int, r.1 as int) == frac_spec(p, xa as int, xb as int, y1 as int, y2 as int, he as int),
        0 <= r.0 <= r.1 <= 8 * MAX_SIDE * MAX_SIDE,
{
    let w = p.gray[0].len() as i32;
    let a = if xa >= 0 { xa } else { 0 };
    let b = if xb <= w - 1 { xb } else { w - 1 };
    if a >= b {
        return (0, 0);
    }
    let mut m: i64 = 0;
    let mut n: i64 = 0;
    let mut y: i32 = y1;
    while y <= y2
        invariant
            p.wf(),
            w == p.width(),
            0 <= a < b < w,
            0 <= y1,
            y2 < p.height(),
            y1 <= y,
            y <= y2 + 1 || y == y1,
            0 <= he <= 175,
            m == strip_cells(p, a as int, b as int, y1 as int, y as int, he as int, true),
            n == strip_cells(p, a as int, b as int, y1 as int, y as int, he as int, false),
            0 <= m <= n <= (y - y1) * MAX_SIDE,
            y - y1 <= MAX_SIDE,
        decreases y2 + 1 - y,
    {
        proof {
            lemma_strip_cells_bound(p, a as int, b as int, y1 as int, y as int, he as int);
        }
        m = m + row_count(p, y as usize, a as usize, b as usize, he, true);
        proof {
            lemma_row_cells_bound(p, y as int, a as int, b + 1, he as int);
        }
        n = n + row_count(p, y as usize, a as usize, b as usize, he, false);
        y = y + 1;
    }
    proof {
        lemma_strip_cells_bound(p, a as int, b as int, y1 as int, y as int, he as int);
        assert((y - y1) * MAX_SIDE <= 8 * MAX_SIDE * MAX_SIDE) by (nonlinear_arith)
            requires
                0 <= y - y1 <= MAX_SIDE + 1;
    }
    (m, n)
}

pub open spec fn cand_ok(c: Option<Cand>) -> bool {
    c matches Some(c) ==> {
        &&& lo53() <= c.score_m < hi53()
        &&& 0 <= c.x1 < MAX_SIDE
        &&& 0 <= c.x2 < MAX_SIDE
        &&& 0 <= c.y1 < MAX_SIDE
        &&& 0 <= c.y2 < MAX_SIDE
    }
}

/// `frac_value(f)`.
fn frac_value_exec(f: (i64, i64)) -> (r: (u64, u32))
    requires
        0 <= f.0 <= f.1 <= 8 * MAX_SIDE * MAX_SIDE,
    ensures
        (r.0 as int, r.1 as nat) == frac_value((f.0 as int, f.1 as int)),
        r.0 < hi53(),
        r.1 <= 106,
        r.0 > 0 ==> r.1 >= 51,
{
    if f.1 == 0 {
        (0, 0)
    } else {
        proof {
            crate::dbl::lemma_frac_dbl_ok(f.0 as int, f.1 as int);
        }
        frac_dbl_exec(f.0 as u64, f.1 as u64)
    }
}

fn step_below_exec(f: (i64, i64), g: (i64, i64)) -> (r: bool)
    requires
        0 <= f.0 <= f.1 <= 8 * MAX_SIDE * MAX_SIDE,
        0 <= g.0 <= g.1 <= 8 * MAX_SIDE * MAX_SIDE,
    ensures
        r == step_below((f.0 as int, f.1 as int), (g.0 as int, g.1 as int)),
{
    let a = frac_value_exec(f);
    let b = frac_value_exec(g);
    step_below_dbl_exec(a, b)
}

/// `score_of(wd, ov, s)`, a value in normal form.
fn score_exec(wd: i32, ov: i32, s: i32) -> (r: (u64, u32))
    requires
        1 <= wd <= MAX_SIDE,
        1 <= s <= ov <= MAX_SIDE,
    ensures
        (r.0 as int, r.1 as nat) == score_of(wd as int, ov as int, s as int),
        lo53() <= r.0 < hi53(),
{
    let sv = frac_dbl_exec(s as u64, ov as u64);
    let ghost gs = (sv.0 as int, sv.1 as nat);
    proof {
        crate::dbl::lemma_frac_dbl_ok(s as int, ov as int);
        crate::dbl::lemma_frac_dbl_le_one(s as int, ov as int);
        crate::dbl::lemma_rne_frac_nonzero(s as int, ov as int);
        assert(1 <= wd * ov <= MAX_SIDE * MAX_SIDE) by (nonlinear_arith)
            requires
                1 <= wd <= MAX_SIDE,
                1 <= ov <= MAX_SIDE;
        crate::dbl::lemma_pow2_49();
    }
    let pv: (u64, u32) = (wd as u64 * ov as u64, 0);
    let ghost gp = (pv.0 as int, 0nat);
    proof {
        assert(gp.0 == wd * ov);
        assert(49 + gp.1 == 49);
        assert(50 + gp.1 == 50);
        crate::dbl::lemma_mul_dbl(gp, gs, 49);
    }
    let t1 = mul_dbl_exec(pv, sv);
    let ghost gt = (t1.0 as int, t1.1 as nat);
    proof {
        crate::dbl::lemma_mul_dbl(gt, gs, 50);
    }
    mul_dbl_exec(t1, sv)
}

/// The frame candidate of the edge pair `(a, b)`, as `pair_cand` states it.
fn pair_cand_of(p: &MinimapPlanes, scan: &ColScan, a: LineFeat, b: LineFeat) -> (r: Option<Cand>)
    requires
        p.wf(),
        scan.of(p),
        30 <= p.width(),
        30 <= p.height(),
        feat_ok(a, p.width(), p.height()),
        feat_ok(b, p.width(), p.height()),
    ensures
        r == pair_cand(p, a, b),
        cand_ok(r),
{
    let w = scan.w;
    let wd = b.pos - a.pos;
    if wd < w * 15 / 100 || wd > w * 80 / 100 {
        return None;
    }
    if a.hue >= 0 && b.hue >= 0 && hue_dist(a.hue, b.hue) > 18 {
        return None;
    }
    let ov_s = if a.run_s >= b.run_s { a.run_s } else { b.run_s };
    let ov_e = if a.run_e <= b.run_e { a.run_e } else { b.run_e };
    let ov = ov_e - ov_s + 1;
    let shorter = if a.run_e - a.run_s <= b.run_e - b.run_s { a.run_e - a.run_s } else { b.run_e - b.run_s };
    if ov * 100 < shorter * 40 {
        return None;
    }
    let sa = cov(scan, a.pos, ov_s, ov_e, Ghost(p));
    let sb = cov(scan, b.pos, ov_s, ov_e, Ghost(p));
    let sup = if sa <= sb { sa } else { sb };
    proof {
        lemma_band_rows_bound(p, a.pos as int, ov_s as int, ov_e + 1);
        lemma_band_rows_bound(p, b.pos as int, ov_s as int, ov_e + 1);
    }
    if sup * 100 < 22 * ov {
        return None;
    }
    if a.hue >= 0 {
        let he = a.hue;
        let l_in = frac_match(p, a.pos + 2, a.pos + 9, ov_s, ov_e, he);
        let l_out = frac_match(p, a.pos - 9, a.pos - 2, ov_s, ov_e, he);
        let r_in = frac_match(p, b.pos - 9, b.pos - 2, ov_s, ov_e, he);
        let r_out = frac_match(p, b.pos + 2, b.pos + 9, ov_s, ov_e, he);
        if step_below_exec(l_in, l_out) || step_below_exec(r_in, r_out) {
            return None;
        }
    }
    let sc = score_exec(wd, ov, sup);
    Some(Cand { score_m: sc.0, score_k: sc.1, x1: a.pos, y1: ov_s, x2: b.pos, y2: ov_e })
}

fn pick_exec(acc: Option<Cand>, c: Option<Cand>) -> (r: Option<Cand>)
    requires
        cand_ok(acc),
        cand_ok(c),
    ensures
        r == pick(acc, c),
        cand_ok(r),
{
    match c {
        None => acc,
        Some(c) => match acc {
            None => Some(c),
            Some(b) => {
                if dbl_gt_exec((c.score_m, c.score_k), (b.score_m, b.score_k)) {
                    Some(c)
                } else {
                    acc
                }
            },
        },
    }
}

/// The best candidate over all pairs of `l`, starting from `acc`.
fn best_in(p: &MinimapPlanes, scan: &ColScan, l: &Vec<LineFeat>, acc: Option<Cand>) -> (r: Option<Cand>)
    requires
        p.wf(),
        scan.of(p),
        30 <= p.width(),
        30 <= p.height(),
        feats_ok(l@, p.width(), p.height()),
        cand_ok(acc),
    ensures
        r == best_all(p, l@, 0, acc),
        cand_ok(r),
{
    let n = l.len();
    let mut cur = acc;
    let mut i: usize = 0;
    while i < n
        invariant
            p.wf(),
            scan.of(p),
            30 <= p.width(),
            30 <= p.height(),
            n == l.len(),
            feats_ok(l@, p.width(), p.height()),
            i <= n,
            cand_ok(cur),
            best_all(p, l@, 0, acc) == best_all(p, l@, i as int, cur),
        decreases n - i,
    {
        let ghost row0 = cur;
        let mut j: usize = i + 1;
        while j < n
            invariant
                p.wf(),
                scan.of(p),
                30 <= p.width(),
                30 <= p.height(),
                n == l.len(),
                feats_ok(l@, p.width(), p.height()),
                i < n,
                i + 1 <= j <= n,
                cand_ok(cur),
                best_row(p, l@, i as int, i + 1, row0) == best_row(p, l@, i as int, j as int, cur),
            decreases n - j,
        {
            let c = pair_cand_of(p, scan, l[i], l[j]);
            cur = pick_exec(cur, c);
            j = j + 1;
        }
        i = i + 1;
    }
    cur
}

/// The camera frame on the minimap (see `camera_frame_spec`), or `None` when
/// no pair of edges passes the tests or the minimap is smaller than 30x30.
pub fn detect_camera_frame(p: &MinimapPlanes) -> (r: Option<Rect>)
    requires
        p.wf(),
    ensures
        r == camera_frame_spec(p),
{
    let scan = match scan_columns(p) {
        Some(s) => s,
        None => return None,
    };
    let b1 = best_in(p, &scan, &scan.bright, None);
    let b2 = best_in(p, &scan, &scan.soft, b1);
    match b2 {
        None => None,
        Some(c) => Some(Rect { x: c.x1, y: c.y1, width: c.x2 - c.x1, height: c.y2 - c.y1 }),
    }
}

// ------------------------------------------------------------ breathing

/// Some pixel of the mask within `radius` of `(x, y)` (a square window,
/// clipped to the mask) is set; a negative radius makes the window empty.
pub open spec fn hit_near_spec(m: Seq<Vec<u8>>, w: int, h: int, x: int, y: int, radius: int) -> bool {
    exists|yy: int, xx: int|
        win_lo(y, radius) <= yy <= win_hi(y, radius, h) && win_lo(x, radius) <= xx <= win_hi(x, radius, w)
            && #[trigger] px(m, yy, xx) > 0
}

/// First index of the window of `radius` around `c`, clipped at 0.
pub open spec fn win_lo(c: int, radius: int) -> int {
    if c - radius >= 0 { c - radius } else { 0 }
}

/// Last index of the window of `radius` around `c`, clipped at `n - 1`.
pub open spec fn win_hi(c: int, radius: int, n: int) -> int {
    if c + radius <= n - 1 { c + radius } else { n - 1 }
}

/// Whether the frame-difference mask flickers near a dot (see
/// `hit_near_spec`); dots whose window holds a changing pixel get the
/// breathing bonus.
pub fn hit_near(m: &Vec<Vec<u8>>, w: usize, x: i32, y: i32, radius: i32) -> (r: bool)
    requires
        is_plane(m@, w as int, m@.len() as int),
        w <= MAX_SIDE,
        m@.len() <= MAX_SIDE,
        -MAX_SIDE <= radius <= MAX_SIDE,
        -MAX_SIDE <= x <= MAX_SIDE,
        -MAX_SIDE <= y <= MAX_SIDE,
    ensures
        r == hit_near_spec(m@, w as int, m@.len() as int, x as int, y as int, radius as int),
{
    let wi = w as i64;
    let hi = m.len() as i64;
    let (xi, yi, rad) = (x as i64, y as i64, radius as i64);
    let sx = if xi - rad >= 0 { xi - rad } else { 0 };
    let sy = if yi - rad >= 0 { yi - rad } else { 0 };
    let ex = if xi + rad <= wi - 1 { xi + rad } else { wi - 1 };
    let ey = if yi + rad <= hi - 1 { yi + rad } else { hi - 1 };
    if ex < sx || ey < sy {
        return false;
    }
    let (sxu, exu, syu, eyu) = (sx as usize, ex as usize, sy as usize, ey as usize);
    let mut yy: usize = syu;
    while yy <= eyu
        invariant
            is_plane(m@, w as int, m@.len() as int),
            sxu == sx,
            exu == ex,
            syu == sy,
            eyu == ey,
            sx == win_lo(x as int, radius as int),
            sy == win_lo(y as int, radius as int),
            ex == win_hi(x as int, radius as int, w as int),
            ey == win_hi(y as int, radius as int, m@.len() as int),
            0 <= sy <= yy <= ey + 1,
            0 <= sx <= ex <= w - 1,
            ey <= m@.len() - 1,
            forall|a: int, b: int| sy <= a < yy && sx <= b <= ex ==> !(#[trigger] px(m@, a, b) > 0),
        decreases eyu + 1 - yy,
    {
        let row = &m[yy];
        proof {
            assert(m@[yy as int]@.len() == w);
        }
        let mut xx: usize = sxu;
        while xx <= exu
            invariant
                is_plane(m@, w as int, m@.len() as int),
                sxu == sx,
                exu == ex,
                eyu == ey,
                sx == win_lo(x as int, radius as int),
                sy == win_lo(y as int, radius as int),
                ex == win_hi(x as int, radius as int, w as int),
                ey == win_hi(y as int, radius as int, m@.len() as int),
                0 <= sy <= yy <= ey,
                ey <= m@.len() - 1,
                0 <= sx <= xx <= ex + 1,
                ex <= w - 1,
                row@ == m@[yy as int]@,
                row@.len() == w,
                forall|a: int, b: int| sy <= a < yy && sx <= b <= ex ==> !(#[trigger] px(m@, a, b) > 0),
                forall|b: int| sx <= b < xx ==> !(#[trigger] px(m@, yy as int, b) > 0),
            decreases exu + 1 - xx,
        {
            if row[xx] > 0 {
                proof {
                    assert(px(m@, yy as int, xx as int) > 0);
                }
                return true;
            }
            xx = xx + 1;
        }
        yy = yy + 1;
    }
    false
}

// ------------------------------------------------------------ laws

/// A candidate frame that lies inside the minimap and whose width is
/// 15%..80% of the minimap's.
pub open spec fn frame_fits(p: &MinimapPlanes, c: Cand) -> bool {
    let w = p.width();
    &&& w * 15 / 100 <= c.x2 - c.x1 <= w * 80 / 100
    &&& 0 <= c.x1
    &&& c.x2 < w
    &&& 0 <= c.y1
    &&& c.y1 + 4 <= c.y2
    &&& c.y2 < p.height()
}

pub open spec fn fits_opt(p: &MinimapPlanes, c: Option<Cand>) -> bool {
    c matches Some(c) ==> frame_fits(p, c)
}

proof fn lemma_pair_fits(p: &MinimapPlanes, a: LineFeat, b: LineFeat)
    requires
        feat_ok(a, p.width(), p.height()),
        feat_ok(b, p.width(), p.height()),
    ensures
        fits_opt(p, pair_cand(p, a, b)),
{
}

proof fn lemma_best_row_fits(p: &MinimapPlanes, l: Seq<LineFeat>, i: int, j: int, acc: Option<Cand>)
    requires
        feats_ok(l, p.width(), p.height()),
        0 <= i < l.len(),
        0 <= j,
        fits_opt(p, acc),
    ensures
        fits_opt(p, best_row(p, l, i, j, acc)),
    decreases l.len() - j,
{
    if j < l.len() {
        lemma_pair_fits(p, l[i], l[j]);
        lemma_best_row_fits(p, l, i, j + 1, pick(acc, pair_cand(p, l[i], l[j])));
    }
}

proof fn lemma_best_all_fits(p: &MinimapPlanes, l: Seq<LineFeat>, i: int, acc: Option<Cand>)
    requires
        feats_ok(l, p.width(), p.height()),
        0 <= i,
        fits_opt(p, acc),
    ensures
        fits_opt(p, best_all(p, l, i, acc)),
    decreases l.len() - i,
{
    if i < l.len() {
        lemma_best_row_fits(p, l, i, i + 1, acc);
        lemma_best_all_fits(p, l, i + 1, best_row(p, l, i, i + 1, acc));
    }
}

proof fn lemma_feats_upto_ok(p: &MinimapPlanes, k: int, soft: bool)
    requires
        p.wf(),
        0 <= k <= p.width(),
    ensures
        feats_ok(feats_upto(p, k, soft), p.width(), p.height()),
    decreases k,
{
    if k > 0 {
        lemma_feats_upto_ok(p, k - 1, soft);
        let x = k - 1;
        let prev = feats_upto(p, k - 1, soft);
        lemma_run_bounds(bright_hits(p, x), p.height());
        lemma_run_bounds(band_hits(p, x), p.height());
        lemma_longest_run_bounds(bright_hits(p, x));
        lemma_longest_run_bounds(band_hits(p, x));
        if soft {
            lemma_argmax_bound(hue_hist(p, x), 36);
        }
        let f = if soft { soft_feat(p, x) } else { bright_feat(p, x) };
        if let Some(ff) = f {
            assert(feat_ok(ff, p.width(), p.height()));
            assert forall|i: int| 0 <= i < prev.push(ff).len() implies feat_ok(#[trigger] prev.push(ff)[i], p.width(), p.height()) by {
                if i < prev.len() {
                    assert(prev.push(ff)[i] == prev[i]);
                }
            }
        }
    }
}

/// The camera frame found always lies inside the minimap, spans 15% to 80%
/// of its width and is at least 4 pixels high: a pair of edges outside that
/// width range is never taken, and the edges' runs (of at least 12 rows)
/// overlap by at least 40% of the shorter one.
pub proof fn lemma_camera_frame_fits(p: &MinimapPlanes)
    requires
        p.wf(),
    ensures
        camera_frame_spec(p) matches Some(f) ==> {
            &&& p.width() * 15 / 100 <= f.width <= p.width() * 80 / 100
            &&& 0 <= f.x
            &&& f.x + f.width < p.width()
            &&& 0 <= f.y
            &&& 4 <= f.height
            &&& f.y + f.height < p.height()
        },
{
    if p.width() >= 30 && p.height() >= 30 {
        let bright = dedupe_spec(feats_upto(p, p.width(), false));
        let soft = dedupe_spec(feats_upto(p, p.width(), true));
        lemma_feats_upto_ok(p, p.width(), false);
        lemma_feats_upto_ok(p, p.width(), true);
        lemma_dedupe_ok(feats_upto(p, p.width(), false), p.width(), p.height());
        lemma_dedupe_ok(feats_upto(p, p.width(), true), p.width(), p.height());
        lemma_best_all_fits(p, bright, 0, None);
        lemma_best_all_fits(p, soft, 0, best_all(p, bright, 0, None));
    }
}

} // verus!
