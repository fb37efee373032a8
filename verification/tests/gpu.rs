use rust_monitor::gpu::{
    after_counters, after_name, after_nvidia_smi, document_name, parse_cim_json,
    parse_nvidia_smi_output, GpuProbe, GpuSample,
};

#[test]
fn test_parse_nvidia_smi_output() {
    let s = "12, 50\n";
    let res = parse_nvidia_smi_output(s);
    assert_eq!(res, Some((12, 50)));
}

#[test]
fn test_parse_cim_json() {
    let json = r#"{"Name":"Test GPU","Other":"x"}"#;
    let res = parse_cim_json(json);
    assert_eq!(res, Some("Test GPU".to_string()));
}

#[test]
fn smi_reads_only_the_first_line() {
    assert_eq!(parse_nvidia_smi_output("7, 41\n99, 80\n"), Some((7, 41)));
    assert_eq!(parse_nvidia_smi_output("\n12, 50\n"), None);
}

#[test]
fn smi_accepts_crlf_and_no_line_end() {
    assert_eq!(parse_nvidia_smi_output("3, 44\r\n"), Some((3, 44)));
    assert_eq!(parse_nvidia_smi_output("3,44"), Some((3, 44)));
}

#[test]
fn smi_trims_whitespace_around_fields() {
    assert_eq!(parse_nvidia_smi_output("  100 ,\t65  \n"), Some((100, 65)));
    assert_eq!(parse_nvidia_smi_output("\u{a0}5,\u{3000}6"), Some((5, 6)));
}

#[test]
fn smi_ignores_fields_after_the_second() {
    assert_eq!(parse_nvidia_smi_output("1, 2, junk\n"), Some((1, 2)));
}

#[test]
fn smi_needs_two_fields() {
    assert_eq!(parse_nvidia_smi_output("12\n"), None);
    assert_eq!(parse_nvidia_smi_output(""), None);
    assert_eq!(parse_nvidia_smi_output(","), None);
}

#[test]
fn smi_numbers_follow_u32_parsing() {
    assert_eq!(parse_nvidia_smi_output("+8, +9"), Some((8, 9)));
    assert_eq!(parse_nvidia_smi_output("-8, 9"), None);
    assert_eq!(parse_nvidia_smi_output("+, 9"), None);
    assert_eq!(parse_nvidia_smi_output("007, 0"), Some((7, 0)));
    assert_eq!(parse_nvidia_smi_output("4294967295, 1"), Some((4294967295, 1)));
    assert_eq!(parse_nvidia_smi_output("4294967296, 1"), None);
    assert_eq!(parse_nvidia_smi_output("1 2, 3"), None);
    assert_eq!(parse_nvidia_smi_output("[N/A], [N/A]"), None);
    assert_eq!(parse_nvidia_smi_output("99999999999x, 1"), None);
}

#[test]
fn cim_name_needs_a_string_name() {
    assert_eq!(parse_cim_json("not json"), None);
    assert_eq!(parse_cim_json(r#"{"Name": 5}"#), None);
    assert_eq!(parse_cim_json(r#"[{"Name": "a"}]"#), None);
    assert_eq!(parse_cim_json(r#"{"Other": "a"}"#), None);
    assert_eq!(parse_cim_json(r#"{"Name": ""}"#), Some(String::new()));
}

#[test]
fn document_name_reads_the_member() {
    let doc: serde_json::Value = serde_json::from_str(r#"{"Name":"Radeon","Name2":"x"}"#).unwrap();
    assert_eq!(document_name(&doc), Some("Radeon".to_string()));
    let other: serde_json::Value = serde_json::from_str("3").unwrap();
    assert_eq!(document_name(&other), None);
}

#[test]
fn probe_ends_with_a_smi_reading() {
    match after_nvidia_smi(Some("12, 50\n"), true) {
        GpuProbe::Finished(Some((u, t, name))) => {
            assert_eq!((u, t), (12, 50));
            assert_eq!(name, "NVIDIA (nvidia-smi)");
        }
        _ => panic!("expected a reading"),
    }
}

#[test]
fn probe_turns_to_windows_counters_only_on_windows() {
    assert!(matches!(after_nvidia_smi(None, true), GpuProbe::Counters));
    assert!(matches!(after_nvidia_smi(Some("garbage"), true), GpuProbe::Counters));
    assert!(matches!(after_nvidia_smi(None, false), GpuProbe::Finished(None)));
}

#[test]
fn probe_counters_give_the_utilization() {
    assert!(matches!(after_counters(Some(15)), GpuProbe::Name { utilization: 15 }));
    assert!(matches!(after_counters(Some(-5)), GpuProbe::Name { utilization: 4294967291 }));
    assert!(matches!(after_counters(None), GpuProbe::Finished(None)));
}

#[test]
fn probe_names_the_gpu_or_falls_back() {
    match after_name(15, Some(r#"{"Name":"Test GPU"}"#)) {
        GpuProbe::Finished(Some((u, t, name))) => {
            assert_eq!((u, t), (15, 0));
            assert_eq!(name, "Test GPU");
        }
        _ => panic!("expected a reading"),
    }
    match after_name(7, None) {
        GpuProbe::Finished(Some((u, t, name))) => {
            assert_eq!((u, t), (7, 0));
            assert_eq!(name, "Windows GPU");
        }
        _ => panic!("expected a reading"),
    }
}

#[test]
fn gpu_sample_holds_its_fields() {
    let s = GpuSample { utilization: 30, temperature: 61 };
    assert_eq!((s.utilization, s.temperature), (30, 61));
}
