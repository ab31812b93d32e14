use aoc23::day19::{accept_paths_checked, accepted_total, combine_counts, find_rule, free_values, optadd, parse_rules, path_cuts_checked, Ival, Part};

#[test]
fn ranges_count_values() {
    let mut iv = Ival::new();
    assert_eq!(iv.count(), 4000);
    iv.exclude(1, 1000);
    assert_eq!(iv.count(), 3000);
    iv.exclude(2001, 2500);
    assert_eq!(iv.count(), 2500);
    iv.include_range(2001, 2100);
    assert_eq!(iv.count(), 2600);
}

#[test]
fn optional_ratings_shift() {
    assert_eq!(optadd((Some(1), None, Some(-3), None), 1), (Some(2), None, Some(-2), None));
}

#[test]
fn combinations_multiply_and_add() {
    assert_eq!(combine_counts(&vec![(2, 3, 4, 5)]), 121);
    assert_eq!(combine_counts(&vec![(1, 1, 1, 1), (4000, 4000, 4000, 4000)]), 256000000000002);
    assert_eq!(combine_counts(&vec![]), 1);
}

#[test]
fn workflows_read() {
    let data: Vec<char> = "px{a<2006:qkq,m>2090:A,rfg}\nin{s<1351:px,qqz}\nqqz{R}\n\n{x=787,m=2655,a=1222,s=2876}\n".chars().collect();
    let rules = parse_rules(&data).unwrap();
    assert_eq!(rules.len(), 3);
    assert_eq!(find_rule(&rules, &vec!['i', 'n']), Some(1));
    assert_eq!(find_rule(&rules, &vec!['z', 'z']), None);
    assert_eq!(rules[0].steps.len(), 3);
}

#[test]
fn part_holds_ratings() {
    let p = Part::new(1, 2, 3, 4);
    assert_eq!((p.x, p.m, p.a, p.s), (1, 2, 3, 4));
}

#[test]
fn accepted_chains_and_cuts() {
    let data: Vec<char> = "in{x<10:A,R}\n\n".chars().collect();
    let rules = parse_rules(&data).unwrap();
    let paths = aoc23::day19::accept_paths_checked(&rules).unwrap();
    assert_eq!(paths, vec![vec![(0, 0)]]);
    let cuts = aoc23::day19::path_cuts_checked(&rules, &paths[0]).unwrap();
    // x < 10 keeps 1..=9: the values 10..=4001 are cut
    assert_eq!(cuts, vec![(0, 10, 4001)]);
}

#[test]
fn open_workflows_are_refused() {
    let data: Vec<char> = "in{x<10:zz,R}\n\n".chars().collect();
    let rules = parse_rules(&data).unwrap();
    assert!(aoc23::day19::accept_paths_checked(&rules).is_none());
    let data: Vec<char> = "px{A}\n\n".chars().collect();
    let rules = parse_rules(&data).unwrap();
    assert!(aoc23::day19::accept_paths_checked(&rules).is_none());
}

#[test]
fn exclusion_cuts_chunks() {
    let mut iv = Ival::new();
    iv.exclude(1000, 2000);
    assert_eq!(iv.chunks, vec![(1, 999), (2001, 4000)]);
    assert_eq!(iv.count(), 2999);
    iv.exclude(1, 4000);
    assert_eq!(iv.chunks, vec![]);
    assert_eq!(iv.count(), 0);
}

#[test]
fn inclusion_widens_or_appends() {
    let mut iv = Ival::new();
    iv.exclude(1000, 2000);
    iv.include_range(900, 1100);
    assert_eq!(iv.chunks, vec![(1, 1100), (2001, 4000)]);
    iv.include_range(5000, 5001);
    assert_eq!(iv.chunks, vec![(1, 1100), (2001, 4000), (5000, 5001)]);
}

#[test]
fn free_values_per_rating() {
    use_free_values();
}

fn use_free_values() {
    let cuts = vec![(0usize, 1i64, 999i64), (0, 2001, 4000), (1, 5, 5)];
    assert_eq!(free_values(&cuts, 0), 1001);
    assert_eq!(free_values(&cuts, 1), 3999);
    assert_eq!(free_values(&cuts, 2), 4000);
}

#[test]
fn sample_accepted_combinations() {
    let sample = "px{a<2006:qkq,m>2090:A,rfg}\npv{a>1716:R,A}\nlnx{m>1548:A,A}\nrfg{s<537:gd,x>2440:R,A}\nqs{s>3448:A,lnx}\nqkq{x<1416:A,crn}\ncrn{x>2662:A,R}\nin{s<1351:px,qqz}\nqqz{s>2770:qs,m<1801:hdj,R}\ngd{a>3333:R,R}\nhdj{m>838:A,pv}\n\n{x=787,m=2655,a=1222,s=2876}\n";
    let chars: Vec<char> = sample.chars().collect();
    let rules = parse_rules(&chars).unwrap();
    let paths = accept_paths_checked(&rules).unwrap();
    let mut counts = Vec::new();
    for p in &paths {
        let cuts = path_cuts_checked(&rules, p).unwrap();
        counts.push((free_values(&cuts, 0), free_values(&cuts, 1), free_values(&cuts, 2), free_values(&cuts, 3)));
    }
    // the total starts from one
    assert_eq!(combine_counts(&counts), 167409079868000 + 1);
    assert_eq!(accepted_total(&rules), Some(167409079868000 + 1));
}
