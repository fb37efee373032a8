use rust_monitor::control::SortBy;
use rust_monitor::display::{
    confirm_area, confirm_text, error_summary, gpu_panel, help_text, memory_text, pid_text,
    summary_cuts_cleanly, table_title,
};
use rust_monitor::gpu::parse_nvidia_smi_output;

#[test]
fn gpu_panel_with_temperature() {
    let (title, percent) = gpu_panel(&Some((57, 66, "NVML".to_string())), &None);
    assert_eq!(title, "GPU - NVML - 66°C");
    assert_eq!(percent, 57);
}

#[test]
fn gpu_panel_without_temperature() {
    let (title, percent) = gpu_panel(&Some((250, 0, "Windows GPU".to_string())), &Some("x".into()));
    assert_eq!(title, "GPU - Windows GPU");
    assert_eq!(percent, 100);
}

#[test]
fn gpu_panel_error_and_none() {
    let (title, percent) = gpu_panel(&None, &Some("driver missing\nsecond".to_string()));
    assert_eq!(title, "GPU Error: driver missing");
    assert_eq!(percent, 0);
    let (title, percent) = gpu_panel(&None, &None);
    assert_eq!(title, "GPU: N/A");
    assert_eq!(percent, 0);
}

#[test]
fn long_errors_are_cut() {
    let err = "a".repeat(41);
    assert_eq!(error_summary(&err, 40, 37), format!("{}...", "a".repeat(37)));
    let err = "b".repeat(40);
    assert_eq!(error_summary(&err, 40, 37), err);
    let (title, _) = gpu_panel(&None, &Some("c".repeat(50)));
    assert_eq!(title, format!("GPU Error: {}...", "c".repeat(37)));
}

#[test]
fn cuts_only_at_character_ends() {
    let err = format!("{}é{}", "a".repeat(36), "z".repeat(10));
    assert!(!summary_cuts_cleanly(&err, 40, 37));
    let err = format!("{}é{}", "a".repeat(35), "z".repeat(10));
    assert!(summary_cuts_cleanly(&err, 40, 37));
    assert_eq!(error_summary(&err, 40, 37), format!("{}é...", "a".repeat(35)));
    assert!(summary_cuts_cleanly("short", 40, 37));
}

#[test]
fn help_line_mentions_errors() {
    let base = "q:quit  p:pause  s:cycle sort  ↑/↓:select  k:kill (confirm)";
    assert_eq!(help_text(&None), base);
    assert_eq!(help_text(&Some("oops".into())), format!("{}    GPU Err: oops", base));
}

#[test]
fn table_and_row_texts() {
    assert_eq!(table_title(SortBy::Delta), "Processes (sort: ΔCPU)");
    assert_eq!(pid_text(0), "0");
    assert_eq!(pid_text(4294967295), "4294967295");
    assert_eq!(memory_text(1024), "1024 KB");
    assert_eq!(confirm_text(314), "Confirm kill PID 314? (y/n)");
}

#[test]
fn confirm_box_position() {
    assert_eq!(confirm_area(80, 24), (20, 8, 40, 3));
    assert_eq!(confirm_area(3, 2), (0, 0, 1, 3));
}

#[test]
fn written_readings_read_back() {
    for (u, t) in [(0u32, 0u32), (12, 50), (4294967295, 7)] {
        let text = format!("{}, {}\n", pid_text(u), pid_text(t));
        assert_eq!(parse_nvidia_smi_output(&text), Some((u, t)));
    }
}
