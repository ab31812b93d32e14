use aoc23::day15::{apply_step, focusing_power, hhash, run_steps};

const SAMPLE: &str = "rn=1,cm-,qp=3,cm=2,qp-,pc=4,ot=9,ab=5,pc-,pc=6,ot=7\n";

#[test]
fn hash_of_word() {
    assert_eq!(hhash("HASH"), 52);
    assert_eq!(hhash("rn"), 0);
    assert_eq!(hhash("qp"), 1);
    assert_eq!(hhash(""), 0);
}

#[test]
fn focusing_power_sample() {
    assert_eq!(focusing_power(SAMPLE), Some(145));
}

#[test]
fn boxes_after_sample() {
    let boxes = run_steps(SAMPLE).unwrap();
    assert_eq!(boxes.len(), 256);
    let b0: Vec<(String, u64)> = boxes[0].iter().map(|(l, f)| (l.iter().collect(), *f)).collect();
    assert_eq!(b0, vec![("rn".to_string(), 1), ("cm".to_string(), 2)]);
    let b3: Vec<(String, u64)> = boxes[3].iter().map(|(l, f)| (l.iter().collect(), *f)).collect();
    assert_eq!(b3, vec![("ot".to_string(), 7), ("ab".to_string(), 5), ("pc".to_string(), 6)]);
}

#[test]
fn remove_keeps_order_and_replace_keeps_place() {
    let mut boxes: Vec<Vec<(Vec<char>, u64)>> = vec![Vec::new(); 256];
    for step in ["ot=9", "ab=5", "pc=4", "ab-", "ot=7"] {
        let item: Vec<char> = step.chars().collect();
        assert!(apply_step(&mut boxes, &item));
    }
    let b3: Vec<(String, u64)> = boxes[3].iter().map(|(l, f)| (l.iter().collect(), *f)).collect();
    assert_eq!(b3, vec![("ot".to_string(), 7), ("pc".to_string(), 4)]);
}

#[test]
fn step_without_focal_length_is_refused() {
    let mut boxes: Vec<Vec<(Vec<char>, u64)>> = vec![Vec::new(); 256];
    let item: Vec<char> = "ab".chars().collect();
    assert!(!apply_step(&mut boxes, &item));
    let item: Vec<char> = "ab=x".chars().collect();
    assert!(!apply_step(&mut boxes, &item));
    assert_eq!(focusing_power("ab=1,cd\n"), None);
}
