use tnt_comput::geom::{Point, Rect};
use tnt_comput::screen::{clamp_geometry, parse_finder_bounds, parse_slurp_geometry, span_rect, DragState, KeyAction, MouseEvent};

fn chars(s: &str) -> Vec<char> {
    s.chars().collect()
}

#[test]
fn slurp_geometry() {
    assert_eq!(parse_slurp_geometry(&chars("10,20 300x400\n")), Some((10, 20, 300, 400)));
    assert_eq!(parse_slurp_geometry(&chars("  -5,+7\t30x40  ")), Some((-5, 7, 30, 40)));
    // pieces that are no number are skipped, as filter_map does
    assert_eq!(parse_slurp_geometry(&chars("1,a,2 3x4")), Some((1, 2, 3, 4)));
}

#[test]
fn slurp_geometry_rejected() {
    assert_eq!(parse_slurp_geometry(&chars("")), None);
    assert_eq!(parse_slurp_geometry(&chars("10,20")), None);
    assert_eq!(parse_slurp_geometry(&chars("10,20 0x400")), None);
    assert_eq!(parse_slurp_geometry(&chars("10,20 30x40 extra")), None);
    assert_eq!(parse_slurp_geometry(&chars("10,20,30 30x40")), None);
    assert_eq!(parse_slurp_geometry(&chars("99999999999,1 3x4")), None);
}

#[test]
fn finder_bounds() {
    assert_eq!(parse_finder_bounds(&chars("0, 0, 1440, 900\n")), Some((1440, 900)));
    assert_eq!(parse_finder_bounds(&chars("-100, 20, 1340, 920")), Some((1440, 900)));
    assert_eq!(parse_finder_bounds(&chars("0, 0, 1440")), None);
    assert_eq!(parse_finder_bounds(&chars("0, 0, 0, 900")), None);
    assert_eq!(parse_finder_bounds(&chars("error")), None);
}

#[test]
fn drag_press_move_release_makes_box() {
    let mut d = DragState::default();
    assert!(d.start.is_none() && d.cur.is_none() && !d.dragging && !d.has_box);
    // moving without the button held changes nothing
    d.on_mouse(MouseEvent::Move, 3, 3);
    assert!(d.cur.is_none());
    d.on_mouse(MouseEvent::LeftDown, 10, 20);
    assert_eq!(d.start, Some(Point { x: 10, y: 20 }));
    assert!(d.dragging && !d.has_box);
    d.on_mouse(MouseEvent::Move, 40, 5);
    assert_eq!(d.cur, Some(Point { x: 40, y: 5 }));
    d.on_mouse(MouseEvent::LeftUp, 50, 2);
    assert_eq!(d.start, Some(Point { x: 10, y: 20 }));
    assert_eq!(d.cur, Some(Point { x: 50, y: 2 }));
    assert!(!d.dragging && d.has_box);
    // a new press drops the finished box
    d.on_mouse(MouseEvent::LeftDown, 7, 8);
    assert!(d.dragging && !d.has_box);
    assert_eq!(d.cur, Some(Point { x: 7, y: 8 }));
    d.on_mouse(MouseEvent::Other, 0, 0);
    assert_eq!(d.start, Some(Point { x: 7, y: 8 }));
}

#[test]
fn span_of_corners() {
    let a = Point { x: 50, y: 2 };
    let b = Point { x: 10, y: 20 };
    assert_eq!(span_rect(b, a), Rect { x: 10, y: 2, width: 40, height: 18 });
    assert_eq!(span_rect(a, b), Rect { x: 10, y: 2, width: 40, height: 18 });
    assert_eq!(span_rect(a, a), Rect { x: 50, y: 2, width: 0, height: 0 });
}

struct Lcg(u64);

impl Lcg {
    fn below(&mut self, n: usize) -> usize {
        self.0 = self.0.wrapping_mul(6364136223846793005).wrapping_add(1442695040888963407);
        ((self.0 >> 33) % n as u64) as usize
    }
}

fn random_text(r: &mut Lcg, alphabet: &[char]) -> String {
    let n = r.below(16);
    (0..n).map(|_| alphabet[r.below(alphabet.len())]).collect()
}

/// What slurp's output means, read with the standard library's own string
/// functions.
fn slurp_by_std(geo_str: &str) -> Option<(i32, i32, i32, i32)> {
    let parts: Vec<&str> = geo_str.trim().split_whitespace().collect();
    if parts.len() == 2 {
        let xy: Vec<i32> = parts[0].split(',').filter_map(|s| s.parse().ok()).collect();
        let wh: Vec<i32> = parts[1].split('x').filter_map(|s| s.parse().ok()).collect();
        if xy.len() == 2 && wh.len() == 2 && wh[0] > 0 && wh[1] > 0 {
            return Some((xy[0], xy[1], wh[0], wh[1]));
        }
    }
    None
}

/// The desktop size in Finder's bounds, read with the standard library's own
/// string functions (the differences taken without overflow).
fn finder_by_std(s: &str) -> Option<(i32, i32)> {
    let nums: Vec<i32> = s.trim().split(',').filter_map(|p| p.trim().parse::<i32>().ok()).collect();
    if nums.len() == 4 {
        let w = nums[2] as i64 - nums[0] as i64;
        let h = nums[3] as i64 - nums[1] as i64;
        if w > 0 && h > 0 && w <= i32::MAX as i64 && h <= i32::MAX as i64 {
            return Some((w as i32, h as i32));
        }
    }
    None
}

#[test]
fn parsing_agrees_with_the_standard_library() {
    let alphabet = [
        '0', '1', '2', '5', '9', ',', ',', 'x', ' ', ' ', '\t', '\n', '-', '+', 'a', '\u{a0}', '\u{3000}', '\u{1c}',
    ];
    let mut r = Lcg(7);
    for _ in 0..20000 {
        let s = random_text(&mut r, &alphabet);
        assert_eq!(parse_slurp_geometry(&chars(&s)), slurp_by_std(&s), "{:?}", s);
        assert_eq!(parse_finder_bounds(&chars(&s)), finder_by_std(&s), "{:?}", s);
    }
    // texts built from numbers and separators, which parse more often
    let pieces = ["12", "-7", "+3", "0", "2147483647", "-2147483648", "99999999999", "", "a", "1a"];
    let seps = [",", ", ", " ,", "x", " ", "\t", ",,", "\u{a0}"];
    let mut some = 0;
    for _ in 0..20000 {
        let mut s = String::new();
        if r.below(3) == 0 {
            s.push(' ');
        }
        let mut piece = |r: &mut Lcg| pieces[r.below(pieces.len())];
        match r.below(3) {
            0 => {
                // the shape slurp prints: "x,y wxh"
                let (a, b, c, d) = (piece(&mut r), piece(&mut r), piece(&mut r), piece(&mut r));
                s.push_str(&format!("{},{} {}x{}", a, b, c, d));
            },
            1 => {
                // the shape Finder prints: "left, top, right, bottom"
                let (a, b, c, d) = (piece(&mut r), piece(&mut r), piece(&mut r), piece(&mut r));
                s.push_str(&format!("{}, {}, {}, {}", a, b, c, d));
            },
            _ => {
                let n = 1 + r.below(6);
                for k in 0..n {
                    if k > 0 {
                        s.push_str(seps[r.below(seps.len())]);
                    }
                    s.push_str(piece(&mut r));
                }
            },
        }
        if r.below(3) == 0 {
            s.push('\n');
        }
        let (a, b) = (parse_slurp_geometry(&chars(&s)), parse_finder_bounds(&chars(&s)));
        assert_eq!(a, slurp_by_std(&s), "{:?}", s);
        assert_eq!(b, finder_by_std(&s), "{:?}", s);
        if a.is_some() || b.is_some() {
            some += 1;
        }
    }
    assert!(some > 100);
    for s in ["0,0 1x1", "-3,+4 10x20", "1, 2, 301, 402", "  7,8\u{a0}9x9 ", "2147483647,0 1x1", "-2147483648, 0, 0, 5"] {
        assert_eq!(parse_slurp_geometry(&chars(s)), slurp_by_std(s), "{:?}", s);
        assert_eq!(parse_finder_bounds(&chars(s)), finder_by_std(s), "{:?}", s);
    }
}

#[test]
fn keys_of_the_selector() {
    let p = |x: i32, y: i32| Point { x, y };
    let mut d = DragState::default();
    // Escape cancels at any time
    assert_eq!(d.on_key(27), KeyAction::Cancel);
    // confirming needs a finished box
    assert_eq!(d.on_key(13), KeyAction::NoBox);
    d.on_mouse(MouseEvent::LeftDown, 10, 20);
    d.on_mouse(MouseEvent::Move, 30, 25);
    assert_eq!(d.on_key(32), KeyAction::NoBox);
    d.on_mouse(MouseEvent::LeftUp, 40, 5);
    for k in [13, 10, 32] {
        assert_eq!(d.on_key(k), KeyAction::Confirm(p(10, 20), p(40, 5)));
    }
    assert_eq!(d.on_key(27), KeyAction::Cancel);
    // other keys change nothing
    assert_eq!(d.on_key(-1), KeyAction::Ignore);
    assert_eq!(d.on_key(113), KeyAction::Ignore);
    // a new press drops the finished box
    d.on_mouse(MouseEvent::LeftDown, 1, 1);
    assert_eq!(d.on_key(13), KeyAction::NoBox);
}

#[test]
fn selection_clamped_to_the_screen() {
    // inside the screen: unchanged
    assert_eq!(clamp_geometry(10, 20, 30, 40, 100, 80), (10, 20, 30, 40));
    // past the right and bottom edges: the corner moves in, the size shrinks
    assert_eq!(clamp_geometry(120, 90, 30, 40, 100, 80), (99, 79, 1, 1));
    assert_eq!(clamp_geometry(90, 70, 30, 40, 100, 80), (90, 70, 10, 10));
    // negative corner and empty size
    assert_eq!(clamp_geometry(-5, -7, 0, -3, 100, 80), (0, 0, 1, 1));
    // an empty screen keeps a 1x1 box at the origin
    assert_eq!(clamp_geometry(10, 10, 5, 5, 0, 0), (0, 0, 1, 1));
}
