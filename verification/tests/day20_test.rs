use aoc23::day20::{build_network, modules_state, parse_module_line, Module, ModuleKind};

#[test]
fn flip_flop_toggles_on_low() {
    let mut m = Module::new(vec!['a'], ModuleKind::FlipFlop);
    assert_eq!(m.perform(true, 0), None);
    assert_eq!(m.perform(false, 0), Some(true));
    assert_eq!(m.perform(false, 0), Some(false));
}

#[test]
fn conjunction_sends_low_when_all_high() {
    let mut m = Module::new(vec!['c'], ModuleKind::Conjunction);
    m.push_input(3);
    m.push_input(5);
    assert_eq!(m.conj_storage, vec![false, false]);
    assert_eq!(m.perform(true, 3), Some(true));
    assert_eq!(m.perform(true, 5), Some(false));
    assert_eq!(m.perform(false, 3), Some(true));
}

#[test]
fn broadcaster_passes_pulses() {
    let mut m = Module::new(vec!['b'], ModuleKind::Broadcast);
    assert_eq!(m.perform(false, 0), Some(false));
    assert_eq!(m.perform(true, 0), Some(true));
}

#[test]
fn module_lines_read() {
    let line: Vec<char> = "%a -> inv, con".chars().collect();
    assert!(parse_module_line(&line).is_some());
    let bad: Vec<char> = "%a => inv".chars().collect();
    assert!(parse_module_line(&bad).is_none());
}

#[test]
fn network_built_and_state_shown() {
    let data = "broadcaster -> a, b, c\n%a -> b\n%b -> c\n%c -> inv\n&inv -> a\n";
    let (modules, _names) = build_network(data).unwrap();
    assert!(modules.len() >= 5);
    let st = modules_state(&modules);
    assert!(!st.is_empty());
}
