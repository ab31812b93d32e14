use aoc23::day11::{galaxy_distances, SkyMap};

#[test]
fn two_galaxies_no_expansion() {
    let (total, ds) = galaxy_distances("#.\n.#\n").unwrap();
    assert_eq!(total, 2);
    assert_eq!(ds, vec![((0, 1), 2)]);
}

#[test]
fn empty_rows_and_columns_are_marked() {
    assert!(SkyMap::readable("#..\n...\n..#\n"));
    assert!(!SkyMap::readable(""));
    let m = SkyMap::from_str("#..\n...\n..#\n");
    assert_eq!(m.galaxies, vec![(0, 0), (2, 2)]);
    assert_eq!(m.weight(0, 0), 1);
    assert_eq!(m.weight(1, 0), 2);
    assert_eq!(m.weight(0, 1), 2);
    assert!(m.in_map((2, 2)));
    assert!(!m.in_map((3, 0)));
    assert!(!m.in_map((-1, 0)));
}

#[test]
fn three_galaxies_in_a_row() {
    let (total, ds) = galaxy_distances("#.#.#\n").unwrap();
    // the empty columns between them count twice
    assert_eq!(ds, vec![((0, 1), 3), ((0, 2), 6), ((1, 2), 3)]);
    assert_eq!(total, 12);
}

#[test]
fn walk_costs_one_per_step_where_nothing_is_marked() {
    let m = SkyMap { map: vec![vec!['.'; 4]; 3], galaxies: vec![], width: 4, height: 3 };
    assert_eq!(m.dist((0, 0), (3, 2)), Some(5));
    assert_eq!(m.dist((3, 2), (0, 0)), Some(5));
    assert_eq!(m.dist((1, 1), (1, 1)), Some(0));
    let marked = SkyMap { map: vec![vec!['.', '*', '.'], vec!['*', '*', '.']], galaxies: vec![], width: 3, height: 2 };
    let d = marked.dist((0, 0), (2, 1)).unwrap();
    assert!(d >= 3 && d <= 3 * 2);
    assert_eq!(d, 4);
}

#[test]
fn sample_pairs_count_empty_lines_twice() {
    let sample = "...#......\n.......#..\n#.........\n..........\n......#...\n.#........\n.........#\n..........\n.......#..\n#...#.....\n";
    let (total, ds) = galaxy_distances(sample).unwrap();
    let get = |a: usize, b: usize| ds.iter().find(|(p, _)| *p == (a, b)).unwrap().1;
    assert_eq!(get(4, 8), 9);
    assert_eq!(get(0, 6), 15);
    assert_eq!(get(2, 5), 17);
    assert_eq!(get(7, 8), 5);
    assert_eq!(total, 374);
}
