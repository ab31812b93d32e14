use aoc23::day18::{dig_plan, parse_step, plan_readable, shoelace, sort_spans, Span, Vec2, DOWN, LEFT, RIGHT, UP};

const SAMPLE: &str = "R 6 (#70c710)\nD 5 (#0dc571)\nL 2 (#5713f0)\nD 2 (#d2c081)\nR 2 (#59c680)\nD 2 (#411b91)\nL 5 (#8ceee2)\nU 2 (#caa173)\nL 1 (#1b58a2)\nU 2 (#caa171)\nR 2 (#7807d2)\nU 3 (#a77fa3)\nL 2 (#015232)\nU 2 (#7a21e3)\n";

#[test]
fn dug_cells_sample() {
    let plan = dig_plan(SAMPLE).unwrap();
    let (_, _, total) = shoelace(&plan.points).unwrap();
    assert_eq!(total, 952408144115);
}

#[test]
fn color_gives_count_and_direction() {
    let line: Vec<char> = "R 6 (#70c710)".chars().collect();
    assert_eq!(parse_step(&line), Some((461937, 0)));
    let line: Vec<char> = "U 2 (#7a21e3)".chars().collect();
    assert_eq!(parse_step(&line), Some((500254, 3)));
    let bad: Vec<char> = "R 6 (70c710)".chars().collect();
    assert_eq!(parse_step(&bad), None);
}

#[test]
fn shoelace_of_square() {
    let pts = vec![Vec2 { x: 0, y: 0 }, Vec2 { x: 2, y: 0 }, Vec2 { x: 2, y: 2 }, Vec2 { x: 0, y: 2 }];
    assert_eq!(shoelace(&pts), Some((4, 8, 9)));
}

#[test]
fn directions_move_one_step() {
    let p = Vec2 { x: 0, y: 0 };
    assert_eq!(p.go_dir(RIGHT), Vec2 { x: 1, y: 0 });
    assert_eq!(p.go_dir(LEFT), Vec2 { x: -1, y: 0 });
    assert_eq!(p.go_dir(UP).y + p.go_dir(DOWN).y, 0);
    assert_eq!(p.go(Vec2 { x: 3, y: -2 }), Vec2 { x: 3, y: -2 });
}

#[test]
fn unreadable_plan_is_refused() {
    assert!(plan_readable(SAMPLE));
    assert!(!plan_readable("X 6 (#70c710)\n"));
    assert!(!plan_readable("R 6 (#70c71)\n"));
    assert!(!plan_readable("R 6 (#70c714)\n"));
}

#[test]
fn spans_drawn_on_a_grid() {
    use_span_map();
}

fn use_span_map() {
    let spans = vec![
        aoc23::day18::Span::new(Vec2 { x: 0, y: 0 }, Vec2 { x: 2, y: 0 }),
        aoc23::day18::Span::new(Vec2 { x: 2, y: 0 }, Vec2 { x: 2, y: 1 }),
    ];
    let m = aoc23::day18::span_map(&spans).unwrap();
    assert_eq!(m, vec![vec!['#', '#', '#'], vec!['.', '.', '#']]);
    let left = vec![aoc23::day18::Span::new(Vec2 { x: -1, y: 0 }, Vec2 { x: -1, y: 0 })];
    assert_eq!(aoc23::day18::span_map(&left).unwrap(), vec![vec!['#', '.']]);
}

#[test]
fn spans_sorted_by_start() {
    let p = |x: i64, y: i64| Vec2 { x, y };
    let mut v = vec![Span::new(p(2, 0), p(2, 3)), Span::new(p(0, 5), p(0, 1)), Span::new(p(0, 1), p(0, 4)), Span::new(p(2, 0), p(2, 9))];
    sort_spans(&mut v);
    let starts: Vec<(i64, i64)> = v.iter().map(|s| (s.start.x, s.start.y)).collect();
    assert_eq!(starts, vec![(0, 1), (0, 5), (2, 0), (2, 0)]);
    assert_eq!(v[2].end, p(2, 3));
    assert_eq!(v[3].end, p(2, 9));
}

#[test]
fn shoelace_ignores_start_and_position() {
    let p = |x: i64, y: i64| Vec2 { x, y };
    let pts = vec![p(0, 0), p(6, 0), p(6, 5), p(4, 5), p(4, 7), p(0, 7)];
    let base = shoelace(&pts).unwrap();
    let mut rotated = pts[1..].to_vec();
    rotated.push(pts[0]);
    assert_eq!(shoelace(&rotated).unwrap(), base);
    let mut turned = pts[3..].to_vec();
    turned.extend_from_slice(&pts[..3]);
    assert_eq!(shoelace(&turned).unwrap(), base);
    let backwards: Vec<Vec2> = pts.iter().rev().cloned().collect();
    assert_eq!(shoelace(&backwards).unwrap(), base);
    let moved: Vec<Vec2> = pts.iter().map(|q| p(q.x - 3, q.y + 10)).collect();
    assert_eq!(shoelace(&moved).unwrap(), base);
}
