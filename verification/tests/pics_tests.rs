use tnt_comput::geom::Rect;
use tnt_comput::pics::{best_template, boxes_left_to_right, extract_individual_digits, is_pic_digit};
use tnt_comput::ui::CompStat;

fn comp(x: i32, y: i32, width: i32, height: i32, area: i32) -> CompStat {
    CompStat { x, y, width, height, area }
}

/// The widest box left whole for each expected digit width up to 60.
fn limits(ratio: f64) -> Vec<i32> {
    (0..67).map(|e| (e as f64 * ratio) as i32).collect()
}

fn rect(x: i32, y: i32, width: i32, height: i32) -> Rect {
    Rect { x, y, width, height }
}

#[test]
fn digit_components() {
    assert!(is_pic_digit(comp(0, 0, 20, 30, 300)));
    assert!(!is_pic_digit(comp(0, 0, 20, 30, 99)));
    assert!(!is_pic_digit(comp(0, 0, 20, 17, 300)));
    assert!(is_pic_digit(comp(0, 0, 60, 20, 300)));
    assert!(!is_pic_digit(comp(0, 0, 61, 20, 300)));
}

#[test]
fn digits_left_to_right_with_wide_boxes_cut() {
    let comps = vec![
        comp(50, 0, 20, 30, 300),
        comp(10, 2, 40, 30, 500),
        comp(30, 0, 10, 10, 50),
        comp(10, 5, 15, 20, 120),
        comp(100, 0, 100, 20, 1000),
        comp(200, 0, 60, 20, 900),
        comp(300, 1, 65, 25, 800),
    ];
    assert_eq!(
        extract_individual_digits(&comps, &limits(1.55)),
        vec![
            // 40 wide, 30 high: expected width 19, so two digits
            rect(10, 2, 20, 30),
            rect(30, 2, 20, 30),
            // same x as the box before it: the sort keeps their order
            rect(10, 5, 15, 20),
            rect(50, 0, 20, 30),
            // 60 wide, 20 high: five digits of 12
            rect(200, 0, 12, 20),
            rect(212, 0, 12, 20),
            rect(224, 0, 12, 20),
            rect(236, 0, 12, 20),
            rect(248, 0, 12, 20),
            // 65 wide, 25 high: four digits, the last takes the rest
            rect(300, 1, 16, 25),
            rect(316, 1, 16, 25),
            rect(332, 1, 16, 25),
            rect(348, 1, 17, 25),
        ]
    );
}

#[test]
fn split_threshold_follows_the_ratio() {
    // height 30: expected width 19; 29 splits above 1.50 (28), not above 1.55 (29)
    let comps = vec![comp(0, 0, 29, 30, 300)];
    assert_eq!(extract_individual_digits(&comps, &limits(1.55)), vec![rect(0, 0, 29, 30)]);
    assert_eq!(extract_individual_digits(&comps, &limits(1.50)), vec![rect(0, 0, 14, 30), rect(14, 0, 15, 30)]);
    assert_eq!(extract_individual_digits(&vec![], &limits(1.55)), vec![]);
}

#[test]
fn ocr_boxes_left_to_right() {
    let rects = vec![rect(30, 0, 5, 8), rect(2, 1, 1, 8), rect(10, 0, 2, 3), rect(10, 4, 4, 2), rect(10, 2, 6, 9), rect(0, 0, 2, 2)];
    // the angle reader keeps boxes wider than 1 and higher than 2
    assert_eq!(boxes_left_to_right(&rects, 2, 3), vec![rect(10, 0, 2, 3), rect(10, 2, 6, 9), rect(30, 0, 5, 8)]);
    // the wind reader keeps every box
    assert_eq!(
        boxes_left_to_right(&rects, 1, 1),
        vec![rect(0, 0, 2, 2), rect(2, 1, 1, 8), rect(10, 0, 2, 3), rect(10, 4, 4, 2), rect(10, 2, 6, 9), rect(30, 0, 5, 8)]
    );
}

#[test]
fn template_with_the_fewest_differing_pixels() {
    // class 2 has the lowest best variant (5); class 4 ties with it later
    let scores = vec![vec![20, 30], vec![], vec![9, 5, 12], vec![40], vec![5], vec![], vec![], vec![], vec![], vec![7]];
    assert_eq!(best_template(&scores), 2);
    // a class without variants is skipped
    assert_eq!(best_template(&vec![vec![], vec![3]]), 1);
    // no variants at all
    assert_eq!(best_template(&vec![vec![]; 10]), -1);
    assert_eq!(best_template(&vec![]), -1);
    // nothing scores below i32::MAX
    assert_eq!(best_template(&vec![vec![i32::MAX]]), -1);
}
