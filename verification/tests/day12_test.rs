use aoc23::day12::{count_fillings, day12_line, is_match, num_match, parse_record, smap, spring_counts, State};

fn states(s: &str) -> Vec<State> {
    s.chars().map(State::from_char).collect()
}

#[test]
fn brute_force_lines() {
    assert_eq!(day12_line("???.### 1,1,3"), Some(1));
    assert_eq!(day12_line(".??..??...?##. 1,1,3"), Some(4));
    assert_eq!(day12_line("?#?#?#?#?#?#?#? 1,3,1,6"), Some(1));
    assert_eq!(day12_line("????.#...#... 4,1,1"), Some(1));
    assert_eq!(day12_line("????.######..#####. 1,6,5"), Some(4));
    assert_eq!(day12_line("?###???????? 3,2,1"), Some(10));
}

#[test]
fn unfolded_counts() {
    let data = "???.### 1,1,3\n.??..??...?##. 1,1,3\n?#?#?#?#?#?#?#? 1,3,1,6\n????.#...#... 4,1,1\n";
    assert_eq!(spring_counts(data), Some((16402, vec![1, 16384, 1, 16])));
}

#[test]
fn known_rows_match_runs() {
    assert!(is_match(&states("#.#.###"), &[1, 1, 3]));
    assert!(is_match(&states("##..###"), &[2, 3]));
    assert!(!is_match(&states("..#####"), &[2, 3]));
    assert!(is_match(&states("#####"), &[5]));
}

#[test]
fn states_print_back() {
    assert_eq!(smap(&states("?#.")), vec!['?', '#', '.']);
    assert_eq!(State::from_str(&['#', '.']), vec![State::Damaged, State::Working]);
}

#[test]
fn record_reading() {
    let line: Vec<char> = "#.? 1,1".chars().collect();
    let (m, runs) = parse_record(&line).unwrap();
    assert_eq!(m, states("#.?"));
    assert_eq!(runs, vec![1, 1]);
    assert!(parse_record(&"#.? 1,x".chars().collect::<Vec<char>>()).is_none());
    assert!(parse_record(&"#.X 1".chars().collect::<Vec<char>>()).is_none());
    assert_eq!(day12_line("#.? 1,1"), Some(1));
}

#[test]
fn matcher_agrees_with_trying_every_filling() {
    for (row, runs) in [("?###????????", vec![3, 2, 1]), (".??..??...?##.", vec![1, 1, 3]), ("????.######..#####.", vec![1, 6, 5]), ("?#?", vec![1])] {
        let by_filling = count_fillings(states(row), &runs);
        let by_matcher = num_match(&states(row), &runs, false);
        assert_eq!(by_filling, by_matcher);
    }
    assert_eq!(count_fillings(states("?###????????"), &vec![3, 2, 1]), Some(10));
}
