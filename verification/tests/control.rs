use rust_monitor::control::{Command, KeyInput, SortBy, ViewState};

fn press(state: &mut ViewState, key: KeyInput, pids: &Vec<u32>) -> Command {
    state.handle_key(key, pids)
}

#[test]
fn starts_sampling_on_cpu() {
    let s = ViewState::new();
    assert!(!s.paused);
    assert_eq!(s.selected, 0);
    assert_eq!(s.sort_by, SortBy::Cpu);
    assert_eq!(s.confirming_kill, None);
}

#[test]
fn sort_key_cycles_through_all_metrics() {
    let mut s = ViewState::new();
    let pids = vec![1, 2];
    let mut seen = vec![s.sort_by];
    for _ in 0..5 {
        assert_eq!(press(&mut s, KeyInput::Char('s'), &pids), Command::Continue);
        seen.push(s.sort_by);
    }
    assert_eq!(
        seen,
        vec![SortBy::Cpu, SortBy::Delta, SortBy::Mem, SortBy::Name, SortBy::Pid, SortBy::Cpu]
    );
}

#[test]
fn labels_name_the_metrics() {
    let labels: Vec<&str> = [SortBy::Cpu, SortBy::Delta, SortBy::Mem, SortBy::Name, SortBy::Pid]
        .iter()
        .map(|s| s.label())
        .collect();
    assert_eq!(labels, vec!["CPU", "ΔCPU", "Mem", "Name", "PID"]);
}

#[test]
fn pause_toggles() {
    let mut s = ViewState::new();
    let pids = vec![];
    press(&mut s, KeyInput::Char('p'), &pids);
    assert!(s.paused);
    press(&mut s, KeyInput::Char('p'), &pids);
    assert!(!s.paused);
}

#[test]
fn selection_moves_within_the_table() {
    let mut s = ViewState::new();
    let pids = vec![10, 20, 30];
    press(&mut s, KeyInput::Up, &pids);
    assert_eq!(s.selected, 0);
    press(&mut s, KeyInput::Down, &pids);
    press(&mut s, KeyInput::Down, &pids);
    press(&mut s, KeyInput::Down, &pids);
    assert_eq!(s.selected, 2);
    press(&mut s, KeyInput::Up, &pids);
    assert_eq!(s.selected, 1);
}

#[test]
fn moving_in_an_empty_table_changes_nothing() {
    let mut s = ViewState::new();
    s.selected = 4;
    let pids = vec![];
    press(&mut s, KeyInput::Down, &pids);
    press(&mut s, KeyInput::Up, &pids);
    assert_eq!(s.selected, 4);
}

#[test]
fn clamping_keeps_selection_inside() {
    let mut s = ViewState::new();
    s.selected = 9;
    s.clamp_selection(4);
    assert_eq!(s.selected, 3);
    s.clamp_selection(4);
    assert_eq!(s.selected, 3);
    s.clamp_selection(0);
    assert_eq!(s.selected, 0);
}

#[test]
fn kill_takes_mark_and_confirmation() {
    let mut s = ViewState::new();
    let pids = vec![100, 200, 300];
    press(&mut s, KeyInput::Down, &pids);
    assert_eq!(press(&mut s, KeyInput::Char('y'), &pids), Command::Continue);
    assert_eq!(press(&mut s, KeyInput::Char('k'), &pids), Command::Continue);
    assert_eq!(s.confirming_kill, Some(200));
    assert_eq!(press(&mut s, KeyInput::Char('y'), &pids), Command::Kill(200));
    assert_eq!(s.confirming_kill, None);
    assert_eq!(press(&mut s, KeyInput::Char('y'), &pids), Command::Continue);
}

#[test]
fn cancel_drops_the_mark() {
    let mut s = ViewState::new();
    let pids = vec![5];
    press(&mut s, KeyInput::Char('k'), &pids);
    assert_eq!(press(&mut s, KeyInput::Char('n'), &pids), Command::Continue);
    assert_eq!(s.confirming_kill, None);
    assert_eq!(press(&mut s, KeyInput::Char('y'), &pids), Command::Continue);
}

#[test]
fn mark_in_empty_table_does_nothing() {
    let mut s = ViewState::new();
    let pids = vec![];
    press(&mut s, KeyInput::Char('k'), &pids);
    assert_eq!(s.confirming_kill, None);
}

#[test]
fn q_quits_and_other_keys_continue() {
    let mut s = ViewState::new();
    let pids = vec![1];
    assert_eq!(press(&mut s, KeyInput::Char('q'), &pids), Command::Quit);
    assert_eq!(press(&mut s, KeyInput::Char('x'), &pids), Command::Continue);
    assert_eq!(press(&mut s, KeyInput::Other, &pids), Command::Continue);
    assert_eq!(press(&mut s, KeyInput::Char('Q'), &pids), Command::Continue);
}
