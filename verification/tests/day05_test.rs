use aoc23::day05::{lowest_location, map_range, map_stage, sort_by_start, sort_items, Item, Mapped};

#[test]
fn map_inside_moves_whole_range() {
    let it = Item::new(98, 50, 2);
    assert!(matches!(it.map((98, 2)), Mapped::Full((50, 2))));
    let it = Item::new(50, 52, 48);
    assert!(matches!(it.map((79, 14)), Mapped::Full((81, 14))));
}

#[test]
fn map_overhang_splits_range() {
    let it = Item::new(50, 52, 48);
    // 90..110 starts inside 50..98: 90..98 moves, 98..110 stays
    assert!(matches!(it.map((90, 20)), Mapped::Partial((92, 8), (98, 12))));
    assert!(matches!(it.map_d((90, 20)), Mapped::Partial((92, 8), (98, 12))));
}

#[test]
fn map_outside_leaves_range() {
    let it = Item::new(50, 52, 48);
    assert!(matches!(it.map((10, 5)), Mapped::Unmapped));
    // a range that starts before the source is not cut at the source's start
    assert!(matches!(it.map((40, 20)), Mapped::Unmapped));
}

#[test]
fn map_range_pieces_in_order() {
    let items = vec![Item::new(50, 52, 48), Item::new(98, 50, 2)];
    assert_eq!(map_range(&items, (90, 20)), vec![(92, 8), (50, 2), (100, 10)]);
    assert_eq!(map_range(&items, (10, 3)), vec![(10, 3)]);
}

#[test]
fn stage_sorts_pieces() {
    let items = vec![Item::new(50, 52, 48), Item::new(98, 50, 2)];
    assert_eq!(map_stage(&vec![(90, 20), (10, 3)], &items), vec![(10, 3), (50, 2), (92, 8), (100, 10)]);
    let mut v = vec![(5, 1), (3, 2), (4, 4), (3, 1)];
    sort_by_start(&mut v);
    assert_eq!(v.iter().map(|p| p.0).collect::<Vec<_>>(), vec![3, 3, 4, 5]);
}

#[test]
fn lowest_location_through_maps() {
    let maps = vec![vec![Item::new(50, 52, 48), Item::new(98, 50, 2)], vec![Item::new(0, 100, 10)]];
    // seeds 79..93 -> 81..95 -> unchanged (starts outside 0..10)
    assert_eq!(lowest_location(&vec![(79, 14)], &maps), Some(81));
    // seeds 5..7 -> 5..7 -> 105..107
    assert_eq!(lowest_location(&vec![(5, 2), (79, 14)], &maps), Some(81));
    assert_eq!(lowest_location(&vec![], &maps), None);
    assert_eq!(lowest_location(&vec![(7, 1)], &vec![]), Some(7));
}

const ALMANAC: &str = "seeds: 79 14 55 13\n\nseed-to-soil map:\n50 98 2\n52 50 48\n\nsoil-to-fertilizer map:\n0 15 37\n37 52 2\n39 0 15\n\nfertilizer-to-water map:\n49 53 8\n0 11 42\n42 0 7\n57 7 4\n\nwater-to-light map:\n88 18 7\n18 25 70\n\nlight-to-temperature map:\n45 77 23\n81 45 19\n68 64 13\n\ntemperature-to-humidity map:\n0 69 1\n1 0 69\n\nhumidity-to-location map:\n60 56 37\n56 93 4\n";

#[test]
fn almanac_read_and_sorted() {
    let (seeds, maps) = aoc23::day05::parse_almanac(ALMANAC).unwrap();
    assert_eq!(seeds, vec![(79, 14), (55, 13)]);
    assert_eq!(maps.len(), 7);
    assert_eq!(maps[0], vec![Item::new(50, 52, 48), Item::new(98, 50, 2)]);
    assert_eq!(maps[6], vec![Item::new(56, 60, 37), Item::new(93, 56, 4)]);
}

#[test]
fn almanac_missing_map_is_refused() {
    assert!(aoc23::day05::parse_almanac("seeds: 1 2\n\nseed-to-soil map:\n1 2 3\n").is_none());
    assert!(aoc23::day05::parse_almanac("seeds: 1 2 3\n").is_none());
}

#[test]
fn checked_lowest_location() {
    let maps = vec![vec![Item::new(50, 52, 48), Item::new(98, 50, 2)]];
    assert_eq!(aoc23::day05::lowest_location_checked(&vec![(79, 14)], &maps), Some(Some(81)));
    // moving this range would overflow
    let big = vec![vec![Item::new(0, i64::MAX, 10)]];
    assert_eq!(aoc23::day05::lowest_location_checked(&vec![(5, 1)], &big), None);
    assert!(aoc23::day05::walk_fits_exec(&maps[0], (79, 14)));
}

#[test]
fn map_lines_sorted_by_source_start() {
    let mut v = vec![Item::new(98, 50, 2), Item::new(50, 52, 48), Item::new(0, 10, 5), Item::new(50, 60, 1)];
    sort_items(&mut v);
    let starts: Vec<i64> = v.iter().map(|i| i.start_in).collect();
    assert_eq!(starts, vec![0, 50, 50, 98]);
    let outs: Vec<i64> = v.iter().map(|i| i.start_out).collect();
    assert_eq!(outs, vec![10, 52, 60, 50]);
}
