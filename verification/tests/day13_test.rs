use aoc23::day13::{cntdiff, parse_patterns, reflection_summary, Pattern};

const SAMPLE: &str = "#.##..##.\n..#.##.#.\n##......#\n##......#\n..#.##.#.\n..##..##.\n#.#.##.#.\n\n#...##..#\n#....#..#\n..##..###\n#####.##.\n#####.##.\n..##..###\n#....#..#\n";

fn rows(s: &str) -> Vec<Vec<bool>> {
    s.lines().map(|l| l.chars().map(|c| c == '#').collect()).collect()
}

#[test]
fn summary_sample_prefers_smudge() {
    assert_eq!(reflection_summary(SAMPLE), Some((400, vec![300, 100])));
}

#[test]
fn patterns_split_on_blank_lines() {
    let ps = parse_patterns(SAMPLE).unwrap();
    assert_eq!(ps.len(), 2);
    assert_eq!(ps[0].normal.len(), 7);
    assert_eq!(ps[0].transposed.len(), 9);
}

#[test]
fn exact_reflections() {
    let p = Pattern::from_normal(rows("#.##..##.\n..#.##.#.\n##......#\n##......#\n..#.##.#.\n..##..##.\n#.#.##.#.\n"));
    assert_eq!(p.find_transposed_reflection(0), Some(5));
    assert_eq!(p.find_reflection(0), None);
    assert_eq!(p.find_reflection(1), Some(3));
    let q = Pattern::from_normal(rows("#...##..#\n#....#..#\n..##..###\n#####.##.\n#####.##.\n..##..###\n#....#..#\n"));
    assert_eq!(q.find_reflection(0), Some(4));
    assert_eq!(q.find_reflection(1), Some(1));
}

#[test]
fn row_differences() {
    assert_eq!(cntdiff(&vec![true, false, true], &vec![true, true, false]), 2);
    assert_eq!(cntdiff(&vec![], &vec![]), 0);
}

#[test]
fn transpose_swaps_rows_and_columns() {
    let p = Pattern::from_normal(rows("#.\n..\n.#\n"));
    assert_eq!(p.transposed, vec![vec![true, false, false], vec![false, false, true]]);
}

#[test]
fn empty_block_or_no_mirror_is_refused() {
    assert!(parse_patterns("#.\n\n\n.#\n").is_none());
    let ps = parse_patterns("#\n").unwrap();
    assert_eq!(ps[0].find_reflection(0), None);
    assert_eq!(ps[0].find_transposed_reflection(0), None);
}
