use aoc23::day22::{count_removable, cube_overlap, parse_brick, parse_bricks, rect_overlap, removable_bricks, Brick, Rect};

#[test]
fn rects_meet() {
    assert!(rect_overlap(&Rect { vmin: [0, 0], vmax: [2, 2] }, &Rect { vmin: [1, 1], vmax: [3, 3] }));
    assert!(rect_overlap(&Rect { vmin: [0, 0], vmax: [1, 1] }, &Rect { vmin: [0, 1], vmax: [1, 2] }));
    assert!(!rect_overlap(&Rect { vmin: [0, 0], vmax: [1, 1] }, &Rect { vmin: [2, 2], vmax: [3, 3] }));
}

#[test]
fn cubes_meet() {
    let a = Brick { vmin: [0, 0, 1], vmax: [2, 0, 1] };
    let b = Brick { vmin: [1, 0, 1], vmax: [1, 2, 1] };
    let c = Brick { vmin: [1, 0, 2], vmax: [1, 2, 2] };
    assert!(cube_overlap(&a, &b));
    assert!(!cube_overlap(&a, &c));
}

#[test]
fn brick_reading_and_moving() {
    let line: Vec<char> = "1,0,2~1,2,3".chars().collect();
    let mut b = parse_brick(&line).unwrap();
    assert_eq!(b.vmin, [1, 0, 2]);
    assert_eq!(b.vmax, [1, 2, 3]);
    b.move_down(1);
    assert_eq!(b.vmin[2], 1);
    assert_eq!(b.vmax[2], 2);
    assert_eq!(b.xyrect().vmax, [1, 2]);
}

#[test]
fn removable_when_bricks_share_levels() {
    // a brick rests where its bottom equals the top of the bricks below it
    assert_eq!(removable_bricks("0,0,1~0,0,1\n"), 1);
    assert_eq!(removable_bricks("0,0,1~0,0,1\n2,0,1~2,0,1\n"), 2);
    assert_eq!(removable_bricks("0,0,1~0,0,1\n0,0,1~0,0,2\n"), 1);
}

#[test]
fn gap_between_bricks_is_refused() {
    let data = "1,0,1~1,2,1\n0,0,2~2,0,2\n0,2,3~2,2,3\n";
    let bricks = parse_bricks(data).unwrap();
    assert_eq!(count_removable(bricks), None);
}

#[test]
fn corners_out_of_order_are_no_brick() {
    let line: Vec<char> = "1,0,1~0,0,1".chars().collect();
    assert!(parse_brick(&line).is_none());
    assert!(parse_bricks("1,0,1~0,0,1\n").is_none());
}
