use vstd::prelude::*;
use crate::geom::{Point, Rect};

verus! {

// ------------------------------------------------------------ characters

/// Unicode white space (`char::is_whitespace`).
pub open spec fn is_ws(c: char) -> bool {
    ||| '\u{9}' <= c <= '\u{d}'
    ||| c == ' '
    ||| c == '\u{85}'
    ||| c == '\u{a0}'
    ||| c == '\u{1680}'
    ||| '\u{2000}' <= c <= '\u{200a}'
    ||| c == '\u{2028}'
    ||| c == '\u{2029}'
    ||| c == '\u{202f}'
    ||| c == '\u{205f}'
    ||| c == '\u{3000}'
}

fn is_ws_exec(c: char) -> (r: bool)
    ensures
        r == is_ws(c),
{
    ('\u{9}' <= c && c <= '\u{d}') || c == ' ' || c == '\u{85}' || c == '\u{a0}' || c == '\u{1680}' || ('\u{2000}'
        <= c && c <= '\u{200a}') || c == '\u{2028}' || c == '\u{2029}' || c == '\u{202f}' || c == '\u{205f}' || c
        == '\u{3000}'
}

pub open spec fn is_digit(c: char) -> bool {
    '0' <= c <= '9'
}

// ------------------------------------------------------------ numbers

/// Value of a string of decimal digits.
pub open spec fn digits_val(s: Seq<char>) -> int
    decreases s.len(),
{
    if s.len() == 0 {
        0
    } else {
        digits_val(s.drop_last()) * 10 + (s.last() as int - '0' as int)
    }
}

pub open spec fn all_digits(s: Seq<char>) -> bool {
    forall|i: int| 0 <= i < s.len() ==> is_digit(#[trigger] s[i])
}

/// `i32::from_str`: an optional sign, then at least one decimal digit, with
/// the value in range.
pub open spec fn parse_i32_spec(s: Seq<char>) -> Option<int> {
    let neg = s.len() > 0 && s[0] == '-';
    let signed = s.len() > 0 && (s[0] == '-' || s[0] == '+');
    let body = if signed { s.drop_first() } else { s };
    if body.len() == 0 || !all_digits(body) {
        None
    } else {
        let v = if neg { -digits_val(body) } else { digits_val(body) };
        if i32::MIN <= v <= i32::MAX { Some(v) } else { None }
    }
}

proof fn lemma_digits_val_grows(s: Seq<char>, i: int)
    requires
        all_digits(s),
        0 <= i <= s.len(),
    ensures
        0 <= digits_val(s.take(i)) <= digits_val(s),
    decreases s.len() - i,
{
    if i < s.len() {
        lemma_digits_val_grows(s, i + 1);
        assert(s.take(i + 1).drop_last() =~= s.take(i));
        assert(is_digit(s[i]));
    } else {
        assert(s.take(i) =~= s);
        lemma_digits_val_nonneg(s);
    }
}

proof fn lemma_digits_val_nonneg(s: Seq<char>)
    requires
        all_digits(s),
    ensures
        0 <= digits_val(s),
    decreases s.len(),
{
    if s.len() > 0 {
        assert(all_digits(s.drop_last())) by {
            assert forall|i: int| 0 <= i < s.drop_last().len() implies is_digit(#[trigger] s.drop_last()[i]) by {
                assert(s.drop_last()[i] == s[i]);
            }
        }
        lemma_digits_val_nonneg(s.drop_last());
        assert(is_digit(s[s.len() - 1]));
    }
}

/// Parses a piece `s[lo..hi]` as `i32` (see `parse_i32_spec`).
fn parse_i32(s: &Vec<char>, lo: usize, hi: usize) -> (r: Option<i32>)
    requires
        lo <= hi <= s.len(),
    ensures
        r matches Some(v) ==> parse_i32_spec(s@.subrange(lo as int, hi as int)) == Some(v as int),
        r is None <==> parse_i32_spec(s@.subrange(lo as int, hi as int)) is None,
{
    let ghost t = s@.subrange(lo as int, hi as int);
    let mut i = lo;
    let mut neg = false;
    if lo < hi && (s[lo] == '-' || s[lo] == '+') {
        neg = s[lo] == '-';
        i = lo + 1;
    }
    let ghost body = if lo < hi && (s@[lo as int] == '-' || s@[lo as int] == '+') { t.drop_first() } else { t };
    proof {
        assert(body =~= s@.subrange(i as int, hi as int));
        if lo < hi {
            assert(t[0] == s@[lo as int]);
        }
        assert(body == (if t.len() > 0 && (t[0] == '-' || t[0] == '+') { t.drop_first() } else { t }));
    }
    if i == hi {
        return None;
    }
    let start = i;
    let mut v: i64 = 0;
    while i < hi
        invariant
            lo <= start <= i <= hi,
            start < hi,
            hi <= s.len(),
            body == s@.subrange(start as int, hi as int),
            t == s@.subrange(lo as int, hi as int),
            body == (if t.len() > 0 && (t[0] == '-' || t[0] == '+') { t.drop_first() } else { t }),
            neg == (t.len() > 0 && t[0] == '-'),
            all_digits(body.take(i - start)),
            v == digits_val(body.take(i - start)),
            0 <= v <= 0x1_0000_0000,
        decreases hi - i,
    {
        let c = s[i];
        let ghost j = i - start;
        proof {
            assert(body[j] == c);
            assert(body.take(j + 1).drop_last() =~= body.take(j));
        }
        if !('0' <= c && c <= '9') {
            proof {
                assert(!is_digit(body[j]));
                assert(!all_digits(body));
                assert(parse_i32_spec(t) is None);
            }
            return None;
        }
        v = v * 10 + (c as u32 - '0' as u32) as i64;
        proof {
            assert(all_digits(body.take(j + 1))) by {
                assert forall|k: int| 0 <= k < j + 1 implies is_digit(#[trigger] body.take(j + 1)[k]) by {
                    if k < j {
                        assert(body.take(j + 1)[k] == body.take(j)[k]);
                    }
                }
            }
        }
        if v > 0x1_0000_0000 {
            proof {
                assert(v == digits_val(body.take(j + 1)));
                if all_digits(body) {
                    lemma_digits_val_grows(body, j + 1);
                }
                assert(parse_i32_spec(t) is None);
            }
            return None;
        }
        i = i + 1;
    }
    proof {
        assert(body.take(body.len() as int) =~= body);
    }
    let val: i64 = if neg { -v } else { v };
    if val < i32::MIN as i64 || val > i32::MAX as i64 {
        return None;
    }
    Some(val as i32)
}

// ------------------------------------------------------------ pieces

pub open spec fn trim_start(s: Seq<char>) -> Seq<char>
    decreases s.len(),
{
    if s.len() > 0 && is_ws(s[0]) {
        trim_start(s.drop_first())
    } else {
        s
    }
}

pub open spec fn trim_end(s: Seq<char>) -> Seq<char>
    decreases s.len(),
{
    if s.len() > 0 && is_ws(s.last()) {
        trim_end(s.drop_last())
    } else {
        s
    }
}

/// `str::trim`: white space removed at both ends.
pub open spec fn trim(s: Seq<char>) -> Seq<char> {
    trim_end(trim_start(s))
}

/// `str::split(sep)`: the pieces between separators, empty ones included.
pub open spec fn pieces(s: Seq<char>, sep: char) -> Seq<Seq<char>>
    decreases s.len(),
{
    if s.len() == 0 {
        seq![Seq::<char>::empty()]
    } else {
        let p = pieces(s.drop_last(), sep);
        if s.last() == sep {
            p.push(Seq::empty())
        } else {
            p.update(p.len() - 1, p.last().push(s.last()))
        }
    }
}

/// The pieces that parse as `i32` (each trimmed first when `trim_each`),
/// in order; the others are skipped.
pub open spec fn parse_all(ps: Seq<Seq<char>>, trim_each: bool) -> Seq<int>
    decreases ps.len(),
{
    if ps.len() == 0 {
        Seq::empty()
    } else {
        let prev = parse_all(ps.drop_last(), trim_each);
        let p = if trim_each { trim(ps.last()) } else { ps.last() };
        match parse_i32_spec(p) {
            Some(v) => prev.push(v),
            None => prev,
        }
    }
}

proof fn lemma_pieces_nonempty(s: Seq<char>, sep: char)
    ensures
        pieces(s, sep).len() >= 1,
    decreases s.len(),
{
    if s.len() > 0 {
        lemma_pieces_nonempty(s.drop_last(), sep);
    }
}

/// `s[lo..hi]` trimmed is `s[a..b]`.
fn trim_range(s: &Vec<char>, lo: usize, hi: usize) -> (r: (usize, usize))
    requires
        lo <= hi <= s.len(),
    ensures
        lo <= r.0 <= r.1 <= hi,
        s@.subrange(r.0 as int, r.1 as int) == trim(s@.subrange(lo as int, hi as int)),
{
    let mut a = lo;
    while a < hi && is_ws_exec(s[a])
        invariant
            lo <= a <= hi <= s.len(),
            trim_start(s@.subrange(lo as int, hi as int)) == trim_start(s@.subrange(a as int, hi as int)),
        decreases hi - a,
    {
        proof {
            assert(s@.subrange(a as int, hi as int).drop_first() =~= s@.subrange(a + 1, hi as int));
        }
        a = a + 1;
    }
    proof {
        assert(trim_start(s@.subrange(a as int, hi as int)) == s@.subrange(a as int, hi as int));
    }
    let mut b = hi;
    while b > a && is_ws_exec(s[b - 1])
        invariant
            lo <= a <= b <= hi <= s.len(),
            trim_end(s@.subrange(a as int, hi as int)) == trim_end(s@.subrange(a as int, b as int)),
        decreases b - a,
    {
        proof {
            assert(s@.subrange(a as int, b as int).drop_last() =~= s@.subrange(a as int, b - 1));
        }
        b = b - 1;
    }
    (a, b)
}

/// The numbers among the pieces of `s[lo..hi]` split at `sep` (see
/// `parse_all`).
fn split_parse(s: &Vec<char>, lo: usize, hi: usize, sep: char, trim_each: bool) -> (r: Vec<i32>)
    requires
        lo <= hi <= s.len(),
    ensures
        r@.len() == parse_all(pieces(s@.subrange(lo as int, hi as int), sep), trim_each).len(),
        forall|k: int| 0 <= k < r@.len() ==> #[trigger] r@[k] as int == parse_all(pieces(s@.subrange(lo as int, hi as int), sep), trim_each)[k],
{
    let mut out: Vec<i32> = Vec::new();
    let ghost mut closed: Seq<Seq<char>> = Seq::empty();
    let mut start = lo;
    let mut i = lo;
    proof {
        assert(s@.subrange(lo as int, lo as int) =~= Seq::<char>::empty());
        assert(pieces(Seq::<char>::empty(), sep) =~= closed.push(s@.subrange(start as int, i as int)));
    }
    while i < hi
        invariant
            lo <= start <= i <= hi <= s.len(),
            pieces(s@.subrange(lo as int, i as int), sep) == closed.push(s@.subrange(start as int, i as int)),
            out@.len() == parse_all(closed, trim_each).len(),
            forall|k: int| 0 <= k < out@.len() ==> #[trigger] out@[k] as int == parse_all(closed, trim_each)[k],
        decreases hi - i,
    {
        let c = s[i];
        proof {
            assert(s@.subrange(lo as int, i + 1).drop_last() =~= s@.subrange(lo as int, i as int));
            assert(s@.subrange(lo as int, i + 1).last() == c);
        }
        if c == sep {
            let (a, b) = if trim_each { trim_range(s, start, i) } else { (start, i) };
            let v = parse_i32(s, a, b);
            let ghost piece = s@.subrange(start as int, i as int);
            proof {
                assert(closed.push(piece).drop_last() =~= closed);
                assert(s@.subrange(a as int, b as int) == (if trim_each { trim(piece) } else { piece }));
            }
            match v {
                Some(x) => out.push(x),
                None => {},
            }
            proof {
                closed = closed.push(piece);
                assert(s@.subrange((i + 1) as int, (i + 1) as int) =~= Seq::<char>::empty());
            }
            start = i + 1;
        } else {
            proof {
                assert(s@.subrange(start as int, i + 1) =~= s@.subrange(start as int, i as int).push(c));
            }
        }
        i = i + 1;
    }
    let (a, b) = if trim_each { trim_range(s, start, hi) } else { (start, hi) };
    let v = parse_i32(s, a, b);
    let ghost piece = s@.subrange(start as int, hi as int);
    proof {
        assert(closed.push(piece).drop_last() =~= closed);
        assert(s@.subrange(a as int, b as int) == (if trim_each { trim(piece) } else { piece }));
    }
    match v {
        Some(x) => out.push(x),
        None => {},
    }
    out
}

// ------------------------------------------------------------ geometry text

/// `str::split_whitespace`: the maximal runs of non-white-space characters.
pub open spec fn ws_tokens(s: Seq<char>) -> Seq<Seq<char>>
    decreases s.len(),
{
    if s.len() == 0 {
        Seq::empty()
    } else {
        let t = ws_tokens(s.drop_last());
        let c = s.last();
        if is_ws(c) {
            t
        } else if s.len() >= 2 && !is_ws(s[s.len() - 2]) {
            t.update(t.len() - 1, t.last().push(c))
        } else {
            t.push(seq![c])
        }
    }
}

/// The geometry `slurp` prints, `"x,y wxh"`: exactly two white-space
/// separated words, the first holding exactly two numbers between commas,
/// the second exactly two positive numbers between `x`s (pieces that are no
/// number are skipped).
pub open spec fn slurp_spec(s: Seq<char>) -> Option<(int, int, int, int)> {
    let toks = ws_tokens(s);
    if toks.len() != 2 {
        None
    } else {
        let xy = parse_all(pieces(toks[0], ','), false);
        let wh = parse_all(pieces(toks[1], 'x'), false);
        if xy.len() == 2 && wh.len() == 2 && wh[0] > 0 && wh[1] > 0 {
            Some((xy[0], xy[1], wh[0], wh[1]))
        } else {
            None
        }
    }
}

/// Token ranges `toks[k]` stand for `s[toks[k].0..toks[k].1]`.
pub open spec fn ranges_are(s: Seq<char>, toks: Seq<(usize, usize)>, ts: Seq<Seq<char>>) -> bool {
    &&& toks.len() == ts.len()
    &&& forall|k: int|
        0 <= k < toks.len() ==> #[trigger] toks[k].0 <= toks[k].1 <= s.len() && s.subrange(
            toks[k].0 as int,
            toks[k].1 as int,
        ) == ts[k]
}

/// The white-space separated words of `s`, as index ranges.
fn word_ranges(s: &Vec<char>) -> (r: Vec<(usize, usize)>)
    ensures
        ranges_are(s@, r@, ws_tokens(s@)),
{
    let mut toks: Vec<(usize, usize)> = Vec::new();
    let mut i: usize = 0;
    proof {
        assert(s@.take(0) =~= Seq::<char>::empty());
    }
    while i < s.len()
        invariant
            i <= s.len(),
            ranges_are(s@, toks@, ws_tokens(s@.take(i as int))),
            forall|k: int| 0 <= k < toks.len() ==> #[trigger] toks@[k].1 <= i,
            (i > 0 && !is_ws(s@[i - 1])) ==> toks.len() > 0 && toks@[toks.len() - 1].1 == i,
        decreases s.len() - i,
    {
        let c = s[i];
        let ghost prev = ws_tokens(s@.take(i as int));
        proof {
            assert(s@.take(i + 1).drop_last() =~= s@.take(i as int));
            assert(s@.take(i + 1).last() == c);
            if i >= 1 {
                assert(s@.take(i + 1)[i - 1] == s@[i - 1]);
            }
        }
        if is_ws_exec(c) {
        } else if i >= 1 && !is_ws_exec(s[i - 1]) {
            let n = toks.len();
            let (a, _) = toks[n - 1];
            proof {
                assert(s@.subrange(a as int, i + 1) =~= s@.subrange(a as int, i as int).push(c));
            }
            toks.set(n - 1, (a, i + 1));
        } else {
            proof {
                assert(s@.subrange(i as int, i + 1) =~= seq![c]);
            }
            toks.push((i, i + 1));
        }
        i = i + 1;
    }
    proof {
        assert(s@.take(i as int) =~= s@);
    }
    toks
}

/// Reads the region `slurp` printed (see `slurp_spec`):
/// `(x, y, width, height)`.
pub fn parse_slurp_geometry(s: &Vec<char>) -> (r: Option<(i32, i32, i32, i32)>)
    ensures
        r matches Some(g) ==> slurp_spec(s@) == Some((g.0 as int, g.1 as int, g.2 as int, g.3 as int)),
        r is None <==> slurp_spec(s@) is None,
{
    let toks = word_ranges(s);
    if toks.len() != 2 {
        return None;
    }
    let (a0, b0) = toks[0];
    let (a1, b1) = toks[1];
    let xy = split_parse(s, a0, b0, ',', false);
    let wh = split_parse(s, a1, b1, 'x', false);
    if xy.len() == 2 && wh.len() == 2 && wh[0] > 0 && wh[1] > 0 {
        Some((xy[0], xy[1], wh[0], wh[1]))
    } else {
        None
    }
}

/// The desktop size in points from the bounds Finder reports,
/// `"left, top, right, bottom"`: exactly four numbers between commas (each
/// piece trimmed, pieces that are no number skipped), giving a positive
/// width and height.
pub open spec fn finder_bounds_spec(s: Seq<char>) -> Option<(int, int)> {
    let nums = parse_all(pieces(trim(s), ','), true);
    if nums.len() == 4 {
        let w = nums[2] - nums[0];
        let h = nums[3] - nums[1];
        if w > 0 && h > 0 { Some((w, h)) } else { None }
    } else {
        None
    }
}

/// Reads the desktop size from Finder's bounds (see `finder_bounds_spec`).
/// A width or height that does not fit `i32` yields `None`.
pub fn parse_finder_bounds(s: &Vec<char>) -> (r: Option<(i32, i32)>)
    ensures
        r matches Some(g) ==> finder_bounds_spec(s@) == Some((g.0 as int, g.1 as int)),
        r is None ==> finder_bounds_spec(s@) is None || ({
            let nums = parse_all(pieces(trim(s@), ','), true);
            nums[2] - nums[0] > i32::MAX || nums[3] - nums[1] > i32::MAX
        }),
{
    let (a, b) = trim_range(s, 0, s.len());
    proof {
        assert(s@.subrange(0, s@.len() as int) =~= s@);
    }
    let nums = split_parse(s, a, b, ',', true);
    if nums.len() != 4 {
        return None;
    }
    let w = nums[2] as i64 - nums[0] as i64;
    let h = nums[3] as i64 - nums[1] as i64;
    if w > 0 && h > 0 && w <= i32::MAX as i64 && h <= i32::MAX as i64 {
        Some((w as i32, h as i32))
    } else {
        None
    }
}

// ------------------------------------------------------------ drag selection

/// A mouse event of the region-selection window.
#[derive(Clone, Copy, Debug, PartialEq, Eq, Structural)]
pub enum MouseEvent {
    LeftDown,
    Move,
    LeftUp,
    Other,
}

/// The drag in the region-selection window: where it started, where the
/// pointer is now, whether the button is held, and whether a finished box
/// is on screen.
#[derive(Clone, Copy, Debug)]
pub struct DragState {
    pub start: Option<Point>,
    pub cur: Option<Point>,
    pub dragging: bool,
    pub has_box: bool,
}

/// Pressing the left button starts a new drag (dropping any finished box);
/// moving with the button held follows the pointer; releasing it finishes
/// the box; anything else changes nothing.
pub open spec fn drag_step(d: DragState, ev: MouseEvent, p: Point) -> DragState {
    match ev {
        MouseEvent::LeftDown => DragState { start: Some(p), cur: Some(p), dragging: true, has_box: false },
        MouseEvent::Move => if d.dragging {
            DragState { start: d.start, cur: Some(p), dragging: true, has_box: d.has_box }
        } else {
            d
        },
        MouseEvent::LeftUp => if d.dragging {
            DragState { start: d.start, cur: Some(p), dragging: false, has_box: true }
        } else {
            d
        },
        MouseEvent::Other => d,
    }
}

impl Default for DragState {
    fn default() -> (r: Self)
        ensures
            r.start is None,
            r.cur is None,
            !r.dragging,
            !r.has_box,
    {
        DragState { start: None, cur: None, dragging: false, has_box: false }
    }
}

impl DragState {
    /// Applies one mouse event at `(x, y)` (see `drag_step`).
    pub fn on_mouse(&mut self, ev: MouseEvent, x: i32, y: i32)
        ensures
            *final(self) == drag_step(*old(self), ev, Point { x, y }),
    {
        let p = Point { x, y };
        match ev {
            MouseEvent::LeftDown => {
                self.start = Some(p);
                self.cur = Some(p);
                self.dragging = true;
                self.has_box = false;
            },
            MouseEvent::Move => {
                if self.dragging {
                    self.cur = Some(p);
                }
            },
            MouseEvent::LeftUp => {
                if self.dragging {
                    self.cur = Some(p);
                    self.dragging = false;
                    self.has_box = true;
                }
            },
            MouseEvent::Other => {},
        }
    }
}

/// What a key press in the region-selection window asks for.
#[derive(Clone, Copy, Debug, PartialEq, Eq, Structural)]
pub enum KeyAction {
    /// Escape: give up the selection.
    Cancel,
    /// Enter, Return or Space with a finished box: take the box spanned by
    /// the two corners.
    Confirm(Point, Point),
    /// Enter, Return or Space before any box was finished.
    NoBox,
    /// Any other key, or a confirm without both corners: keep going.
    Ignore,
}

/// Escape (27) cancels; Enter (13 or 10) or Space (32) confirms the
/// finished box from the drag's start to the pointer, and only once a box
/// exists; every other key is ignored.
pub open spec fn key_step(d: DragState, key: i32) -> KeyAction {
    if key == 27 {
        KeyAction::Cancel
    } else if key == 13 || key == 10 || key == 32 {
        if !d.has_box {
            KeyAction::NoBox
        } else {
            match (d.start, d.cur) {
                (Some(s), Some(c)) => KeyAction::Confirm(s, c),
                _ => KeyAction::Ignore,
            }
        }
    } else {
        KeyAction::Ignore
    }
}

impl DragState {
    /// What the key `key` asks for in this state (see `key_step`).
    pub fn on_key(&self, key: i32) -> (r: KeyAction)
        ensures
            r == key_step(*self, key),
    {
        if key == 27 {
            KeyAction::Cancel
        } else if key == 13 || key == 10 || key == 32 {
            if !self.has_box {
                KeyAction::NoBox
            } else {
                match (self.start, self.cur) {
                    (Some(s), Some(c)) => KeyAction::Confirm(s, c),
                    _ => KeyAction::Ignore,
                }
            }
        } else {
            KeyAction::Ignore
        }
    }
}

/// Once a drag is finished, confirming takes exactly the box it spans, and
/// before any finished box a confirm key never yields one.
pub proof fn lemma_confirm_after_drag(d: DragState, p: Point, moves: Seq<Point>, q: Point, key: i32)
    requires
        key == 13 || key == 10 || key == 32,
    ensures
        ({
            let pressed = drag_step(d, MouseEvent::LeftDown, p);
            let done = drag_step(moves_from(pressed, moves), MouseEvent::LeftUp, q);
            &&& key_step(done, key) == KeyAction::Confirm(p, q)
            &&& key_step(pressed, key) == KeyAction::NoBox
            &&& key_step(moves_from(pressed, moves), key) == KeyAction::NoBox
        }),
{
    lemma_drag_makes_box(d, p, moves, q);
    lemma_moves_keep_drag(drag_step(d, MouseEvent::LeftDown, p), moves);
}

/// The rectangle spanned by two corners.
pub open spec fn span_spec(s: Point, c: Point) -> Rect {
    Rect {
        x: if s.x <= c.x { s.x } else { c.x },
        y: if s.y <= c.y { s.y } else { c.y },
        width: (if s.x <= c.x { c.x - s.x } else { s.x - c.x }) as i32,
        height: (if s.y <= c.y { c.y - s.y } else { s.y - c.y }) as i32,
    }
}

/// The rectangle spanned by the start of a drag and the pointer.
pub fn span_rect(s: Point, c: Point) -> (r: Rect)
    requires
        -i32::MAX <= s.x - c.x <= i32::MAX,
        -i32::MAX <= s.y - c.y <= i32::MAX,
    ensures
        r == span_spec(s, c),
        r.width >= 0 && r.height >= 0,
        r.x + r.width == (if s.x <= c.x { c.x } else { s.x }),
        r.y + r.height == (if s.y <= c.y { c.y } else { s.y }),
{
    let x = if s.x <= c.x { s.x } else { c.x };
    let y = if s.y <= c.y { s.y } else { c.y };
    let w = if s.x <= c.x { c.x - s.x } else { s.x - c.x };
    let h = if s.y <= c.y { c.y - s.y } else { s.y - c.y };
    Rect { x, y, width: w, height: h }
}

/// Pressing at `p`, moving to any points and releasing at `q` leaves a
/// finished box from `p` to `q`, whatever was on screen before.
pub proof fn lemma_drag_makes_box(d: DragState, p: Point, moves: Seq<Point>, q: Point)
    ensures
        ({
            let pressed = drag_step(d, MouseEvent::LeftDown, p);
            let moved = moves_from(pressed, moves);
            let done = drag_step(moved, MouseEvent::LeftUp, q);
            done.start == Some(p) && done.cur == Some(q) && !done.dragging && done.has_box
        }),
{
    lemma_moves_keep_drag(drag_step(d, MouseEvent::LeftDown, p), moves);
}

/// The state after a series of pointer moves.
pub open spec fn moves_from(d: DragState, moves: Seq<Point>) -> DragState
    decreases moves.len(),
{
    if moves.len() == 0 {
        d
    } else {
        drag_step(moves_from(d, moves.drop_last()), MouseEvent::Move, moves.last())
    }
}

proof fn lemma_moves_keep_drag(d: DragState, moves: Seq<Point>)
    requires
        d.dragging,
        !d.has_box,
    ensures
        moves_from(d, moves).start == d.start,
        moves_from(d, moves).dragging,
        !moves_from(d, moves).has_box,
    decreases moves.len(),
{
    if moves.len() > 0 {
        lemma_moves_keep_drag(d, moves.drop_last());
    }
}

/// Without the button held, pointer moves change nothing, however many.
pub proof fn lemma_moves_without_press(d: DragState, moves: Seq<Point>)
    requires
        !d.dragging,
    ensures
        moves_from(d, moves) == d,
    decreases moves.len(),
{
    if moves.len() > 0 {
        lemma_moves_without_press(d, moves.drop_last());
    }
}

/// A finished box stays as it was released: pressing at `p`, moving, and
/// releasing at `q`, then moving the pointer on without a new press, a
/// confirm key still takes the box from `p` to `q`.
pub proof fn lemma_box_kept_after_release(
    d: DragState,
    p: Point,
    moves: Seq<Point>,
    q: Point,
    after: Seq<Point>,
    key: i32,
)
    requires
        key == 13 || key == 10 || key == 32,
    ensures
        ({
            let pressed = drag_step(d, MouseEvent::LeftDown, p);
            let done = drag_step(moves_from(pressed, moves), MouseEvent::LeftUp, q);
            &&& moves_from(done, after) == done
            &&& key_step(moves_from(done, after), key) == KeyAction::Confirm(p, q)
        }),
{
    lemma_drag_makes_box(d, p, moves, q);
    let pressed = drag_step(d, MouseEvent::LeftDown, p);
    let done = drag_step(moves_from(pressed, moves), MouseEvent::LeftUp, q);
    lemma_moves_without_press(done, after);
}

// ------------------------------------------------------------ clamping

pub open spec fn clamp_i(v: int, lo: int, hi: int) -> int {
    if v < lo { lo } else if v > hi { hi } else { v }
}

pub open spec fn max_i(a: int, b: int) -> int {
    if a >= b { a } else { b }
}

pub open spec fn min_i(a: int, b: int) -> int {
    if a <= b { a } else { b }
}

/// The selected region clamped to a screen `max_gx` x `max_gy` in capture
/// units: the corner into `[0, max(max_gx - 1, 0)]` x `[0, max(max_gy - 1, 0)]`,
/// the size at least 1 and at most what is left of the screen past the
/// corner (but at least 1).
pub open spec fn clamp_geometry_spec(gx: int, gy: int, gw: int, gh: int, max_gx: int, max_gy: int) -> (int, int, int, int) {
    let x = clamp_i(gx, 0, max_i(max_gx - 1, 0));
    let y = clamp_i(gy, 0, max_i(max_gy - 1, 0));
    (x, y, min_i(max_i(gw, 1), max_i(max_gx - x, 1)), min_i(max_i(gh, 1), max_i(max_gy - y, 1)))
}

/// Clamps a selected region to the screen (see `clamp_geometry_spec`).
pub fn clamp_geometry(gx: i32, gy: i32, gw: i32, gh: i32, max_gx: i32, max_gy: i32) -> (r: (i32, i32, i32, i32))
    requires
        max_gx > i32::MIN,
        max_gy > i32::MIN,
    ensures
        (r.0 as int, r.1 as int, r.2 as int, r.3 as int) == clamp_geometry_spec(
            gx as int,
            gy as int,
            gw as int,
            gh as int,
            max_gx as int,
            max_gy as int,
        ),
        0 <= r.0 && 0 <= r.1 && 1 <= r.2 && 1 <= r.3,
{
    let hx = if max_gx - 1 >= 0 { max_gx - 1 } else { 0 };
    let hy = if max_gy - 1 >= 0 { max_gy - 1 } else { 0 };
    let x = if gx < 0 { 0 } else if gx > hx { hx } else { gx };
    let y = if gy < 0 { 0 } else if gy > hy { hy } else { gy };
    let w1 = if gw >= 1 { gw } else { 1 };
    let h1 = if gh >= 1 { gh } else { 1 };
    let rx = if max_gx - x >= 1 { max_gx - x } else { 1 };
    let ry = if max_gy - y >= 1 { max_gy - y } else { 1 };
    (x, y, if w1 <= rx { w1 } else { rx }, if h1 <= ry { h1 } else { ry })
}

} // verus!
