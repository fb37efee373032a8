use rust_monitor::processes::{order_by_memory, order_by_name, order_by_pid, ProcessFilter};

#[test]
fn memory_order_is_largest_first_and_stable() {
    let mem = vec![10, 30, 20, 30, 10];
    assert_eq!(order_by_memory(&mem), vec![1, 3, 2, 0, 4]);
    assert_eq!(order_by_memory(&vec![]), Vec::<usize>::new());
}

#[test]
fn pid_order_is_ascending() {
    let pids = vec![300, 1, 42, 7];
    assert_eq!(order_by_pid(&pids), vec![1, 3, 2, 0]);
}

#[test]
fn name_order_follows_string_order_and_is_stable() {
    let names: Vec<String> = ["zsh", "Xorg", "bash", "zsh", "bas", "é", "z"]
        .iter()
        .map(|s| s.to_string())
        .collect();
    let order = order_by_name(&names);
    let mut expected: Vec<usize> = (0..names.len()).collect();
    expected.sort_by(|a, b| names[*a].cmp(&names[*b]));
    assert_eq!(order, expected);
    assert_eq!(order, vec![1, 4, 2, 6, 0, 3, 5]);
}

#[test]
fn filter_by_pid() {
    let f = ProcessFilter::new(Some(42), None);
    assert!(f.matches(42, "anything"));
    assert!(!f.matches(43, "anything"));
}

#[test]
fn filter_by_name_ignores_case() {
    let f = ProcessFilter::new(None, Some("FireFox"));
    assert_eq!(f.name.as_deref(), Some("firefox"));
    assert!(f.matches(1, "Firefox-bin"));
    assert!(f.matches(1, "my FIREFOX"));
    assert!(!f.matches(1, "fire fox"));
}

#[test]
fn filter_needs_both() {
    let f = ProcessFilter::new(Some(7), Some("sh"));
    assert!(f.matches(7, "bash"));
    assert!(!f.matches(8, "bash"));
    assert!(!f.matches(7, "vim"));
}

#[test]
fn empty_filter_admits_all() {
    let f = ProcessFilter::new(None, None);
    assert!(f.matches(0, ""));
    let g = ProcessFilter::new(None, Some(""));
    assert!(g.matches(3, "x"));
}

#[test]
fn negative_pid_filter_compares_as_u32() {
    let f = ProcessFilter::new(Some(-1), None);
    assert!(f.matches(u32::MAX, "x"));
    assert!(!f.matches(1, "x"));
}
