use sweep_report::ipa_report::{
    classify, csv_asset, csv_marker_position, decimal_text, normalize_device, parse_test_result,
    DtfState, ReportError, RlState, SweepReport, TestType, Warning,
};
use sweep_report::raw_ipa_report::{
    Assets, Bundle, Details, Device, DeviceDetails, Devices, Items, Limit, Limits, Report, Reports,
    Results, State, States, Tag, Test, TestResult,
};
use sweep_report::remove_non_ascii;

fn s(x: &str) -> String {
    x.to_string()
}

fn details(id: &str, cal: &str) -> DeviceDetails {
    DeviceDetails { id: s(id), sw_versions: s("1.2.3"), cal_date: s(cal), signature: s("sig") }
}

fn device(n: usize) -> Device {
    let mut v = Vec::new();
    for k in 0..n {
        v.push(details(&format!("ID{}", k), "2021-03-04T05:06:07+02:00"));
    }
    Device { serial_number: s("SN1"), model: s("M1"), details: Details { device_details: v } }
}

fn limit() -> Limit {
    Limit {
        limit_type: s("Upper"),
        measurement_type: s("VSWR"),
        unit: s("VSWR"),
        name: s("L1"),
        range: None,
        reference: s("1.5"),
    }
}

fn dtf_state(id: &str) -> State {
    State {
        id: s(id),
        test_type: s("DTF"),
        rx_khz: Some(s("1710000:2170000")),
        points: s("517"),
        distance_m: Some(s("30")),
        vf: None,
        window: None,
        cable_loss_db_per_m: Some(s("0.25")),
        limits: Limits { limit: vec![limit()] },
    }
}

fn rl_state(id: &str) -> State {
    State {
        id: s(id),
        test_type: s("RL"),
        rx_khz: None,
        points: s("201"),
        distance_m: None,
        vf: None,
        window: None,
        cable_loss_db_per_m: None,
        limits: Limits { limit: vec![limit()] },
    }
}

fn test_record(tags: &[&str], unit: &str, state: &str) -> Test {
    Test {
        id: s("T"),
        state_id: s(state),
        time: s("2021-05-06 07:08"),
        calibrated: s("09:10:11"),
        assets: Assets { asset: vec![s("shot.png"), s("data/trace.csv")] },
        tags: tags.iter().map(|t| Tag { tag: s(t) }).collect(),
        results: Results {
            test_result: TestResult {
                measurement_type: s("M"),
                unit: s(unit),
                p1: s("1"),
                p2: s("2"),
                maximum: s("12.5:1.31"),
                minimum: s("0.5:1.01"),
                average: s("1.1"),
                ripple: s("0.3"),
                pass: s("true"),
            },
        },
    }
}

fn bundle(devices: Vec<Device>, tests: Vec<Test>) -> Bundle {
    Bundle {
        version: s("1"),
        devices: Devices { device: devices },
        states: States { state: vec![dtf_state("S1"), rl_state("S2")] },
        reports: Reports {
            report: vec![Report {
                id: s("R"),
                peak_pim_dbm: s("0"),
                peak_pim_power_set_point_dbm: s("0"),
                test_passed: s("true"),
                items: Items { test: tests },
            }],
        },
    }
}

fn sidecar(marker_line: &str) -> String {
    let mut text = String::new();
    for k in 0..13 {
        text.push_str(&format!("header {}\n", k));
    }
    text.push_str(marker_line);
    text.push('\n');
    text.push_str("trailer\n");
    text
}

fn sidecars(n: usize) -> Vec<Option<String>> {
    (0..n).map(|_| Some(sidecar("1,2,12.34,5"))).collect()
}

fn run(b: &Bundle, sc: &Vec<Option<String>>) -> Result<(SweepReport, Vec<Warning>), ReportError> {
    SweepReport::from_raw_ipa_report(b, sc)
}

fn err(b: &Bundle, sc: &Vec<Option<String>>) -> ReportError {
    match run(b, sc) {
        Ok(_) => panic!("expected an error"),
        Err(e) => e,
    }
}

#[test]
fn remove_non_ascii_keeps_ascii_only() {
    assert_eq!(remove_non_ascii(s("a\u{e9}b\u{2603}c\n")), "abc\n");
    assert_eq!(remove_non_ascii(s("")), "");
}

#[test]
fn marker_from_fourteenth_line() {
    let d = csv_marker_position(&sidecar("1,2,12.34,5")).unwrap();
    assert_eq!(d.text, "12.34");
    assert_eq!(d.text.parse::<f64>().unwrap(), 12.34);
}

#[test]
fn marker_with_crlf_line_endings() {
    let text = sidecar("1,2,-3.5,5").replace('\n', "\r\n");
    assert_eq!(csv_marker_position(&text).unwrap().text, "-3.5");
}

#[test]
fn marker_on_last_line_without_newline() {
    let mut text = String::new();
    for _ in 0..13 {
        text.push_str("x\n");
    }
    text.push_str("a,b,7");
    assert_eq!(csv_marker_position(&text).unwrap().text, "7");
}

#[test]
fn marker_needs_fourteen_lines() {
    let mut text = String::new();
    for _ in 0..13 {
        text.push_str("1,2,3\n");
    }
    assert_eq!(csv_marker_position(&text).unwrap_err(), ReportError::MalformedAsset);
    assert_eq!(csv_marker_position("").unwrap_err(), ReportError::MalformedAsset);
}

#[test]
fn marker_needs_three_fields() {
    assert_eq!(csv_marker_position(&sidecar("1,2")).unwrap_err(), ReportError::MarkerParseError);
    assert_eq!(csv_marker_position(&sidecar("")).unwrap_err(), ReportError::MarkerParseError);
}

#[test]
fn marker_must_be_numeric() {
    assert_eq!(csv_marker_position(&sidecar("1,2,abc,5")).unwrap_err(), ReportError::MarkerParseError);
    assert_eq!(csv_marker_position(&sidecar("1,2,1.2.3")).unwrap_err(), ReportError::MarkerParseError);
    assert_eq!(csv_marker_position(&sidecar("1,2,")).unwrap_err(), ReportError::MarkerParseError);
}

#[test]
fn classify_by_unit() {
    assert_eq!(classify(&s("VSWR")).unwrap(), TestType::Dtf);
    assert_eq!(classify(&s("dB")).unwrap(), TestType::ReturnLoss);
    assert_eq!(classify(&s("Ohm")).unwrap_err(), ReportError::UnknownTestUnit(s("Ohm")));
    assert_eq!(classify(&s("db")).unwrap_err(), ReportError::UnknownTestUnit(s("db")));
}

#[test]
fn decimal_text_writes_digits() {
    assert_eq!(decimal_text(0), "0");
    assert_eq!(decimal_text(2), "2");
    assert_eq!(decimal_text(1203), "1203");
}

#[test]
fn device_without_details_fails() {
    let mut ws = Vec::new();
    assert_eq!(normalize_device(&device(0), &mut ws).unwrap_err(), ReportError::MissingDeviceDetails);
    assert!(ws.is_empty());
}

#[test]
fn device_with_two_details_warns_once() {
    let mut ws = Vec::new();
    let d = normalize_device(&device(2), &mut ws).unwrap();
    assert_eq!(d.id, "ID0");
    assert_eq!(ws.len(), 1);
    assert_eq!(ws[0].message, "Unexpected details count");
    assert_eq!(ws[0].expected, "1");
    assert_eq!(ws[0].result, "2");
}

#[test]
fn device_fields_and_timestamp() {
    let mut ws = Vec::new();
    let d = normalize_device(&device(1), &mut ws).unwrap();
    assert!(ws.is_empty());
    assert_eq!(d.serial_number, "SN1");
    assert_eq!(d.model, "M1");
    assert_eq!(d.sw_version, "1.2.3");
    assert_eq!(d.signature, "sig");
    let t = d.calibration_date;
    assert_eq!((t.year, t.month, t.day, t.hour, t.minute, t.second), (2021, 3, 4, 5, 6, 7));
    assert_eq!(t.offset_seconds, 7200);
}

#[test]
fn device_with_bad_timestamp_fails() {
    let mut dev = device(1);
    dev.details.device_details[0].cal_date = s("04/03/2021");
    let mut ws = Vec::new();
    assert_eq!(normalize_device(&dev, &mut ws).unwrap_err(), ReportError::TimestampParse);
}

#[test]
fn dtf_state_projection() {
    let st = DtfState::from_raw(&dtf_state("S1")).unwrap();
    assert_eq!(st.id, "S1");
    assert_eq!(st.rx_khz, (1710000, 2170000));
    assert_eq!(st.points, 517);
    assert_eq!(st.limit_distance, 30);
    assert_eq!(st.cable_loss_dbm.text, "0.25");
    assert_eq!(st.limit.reference_value, "1.5");
    assert_eq!(DtfState::from_raw(&rl_state("S2")).unwrap_err(), ReportError::MalformedState);
}

#[test]
fn rl_state_projection() {
    let st = RlState::from_raw(&rl_state("S2")).unwrap();
    assert_eq!(st.id, "S2");
    assert_eq!(st.test_type, "RL");
    assert_eq!(st.points, 201);
    assert_eq!(st.limit.name, "L1");
    let mut bad = rl_state("S3");
    bad.points = s("-4");
    assert_eq!(RlState::from_raw(&bad).unwrap_err(), ReportError::MalformedState);
}

#[test]
fn test_result_fields() {
    let r = parse_test_result(&test_record(&["C"], "VSWR", "S1")).unwrap();
    assert_eq!((r.p1, r.p2), (1, 2));
    assert_eq!((r.max.0.text.as_str(), r.max.1.text.as_str()), ("12.5", "1.31"));
    assert_eq!((r.min.0.text.as_str(), r.min.1.text.as_str()), ("0.5", "1.01"));
    assert_eq!(r.avg.text, "1.1");
    assert_eq!(r.ripple.text, "0.3");
    assert!(r.pass);
    assert_eq!((r.calibrated.hour, r.calibrated.minute, r.calibrated.second), (9, 10, 11));
    assert_eq!((r.time.year, r.time.month, r.time.day, r.time.hour, r.time.minute), (2021, 5, 6, 7, 8));
}

#[test]
fn test_result_parse_failures() {
    let mut t = test_record(&["C"], "VSWR", "S1");
    t.results.test_result.p1 = s("4294967296");
    assert_eq!(parse_test_result(&t).unwrap_err(), ReportError::ResultParseError);
    let mut t = test_record(&["C"], "VSWR", "S1");
    t.results.test_result.maximum = s("12.5");
    assert_eq!(parse_test_result(&t).unwrap_err(), ReportError::ResultParseError);
    let mut t = test_record(&["C"], "VSWR", "S1");
    t.results.test_result.pass = s("yes");
    assert_eq!(parse_test_result(&t).unwrap_err(), ReportError::ResultParseError);
    let mut t = test_record(&["C"], "VSWR", "S1");
    t.time = s("2021-05-06T07:08");
    assert_eq!(parse_test_result(&t).unwrap_err(), ReportError::ResultParseError);
}

#[test]
fn csv_asset_is_the_last_csv() {
    let mut t = test_record(&["C"], "VSWR", "S1");
    t.assets.asset = vec![s("a.csv"), s("b.png"), s("c.csv"), s("d.txt")];
    assert_eq!(csv_asset(&t).unwrap(), "c.csv");
    t.assets.asset = vec![s("b.png")];
    assert!(csv_asset(&t).is_none());
}

#[test]
fn distinct_tags_give_one_report_each() {
    let tests = vec![
        test_record(&["A"], "VSWR", "S1"),
        test_record(&["B"], "dB", "S2"),
        test_record(&["C"], "VSWR", "S1"),
    ];
    let b = bundle(vec![device(1)], tests);
    let (rep, ws) = run(&b, &sidecars(3)).unwrap();
    assert!(ws.is_empty());
    assert_eq!(rep.devices.len(), 1);
    let tags: Vec<&str> = rep.reports.iter().map(|r| r.tag.as_str()).collect();
    assert_eq!(tags, vec!["A", "B", "C"]);
    for r in &rep.reports {
        assert!(r.dtf_result.is_some() || r.rl_result.is_some());
    }
}

#[test]
fn repeated_tags_count_once() {
    let tests = vec![
        test_record(&["A"], "VSWR", "S1"),
        test_record(&["B"], "dB", "S2"),
        test_record(&["A"], "dB", "S2"),
        test_record(&["B"], "VSWR", "S1"),
        test_record(&["C"], "dB", "S2"),
    ];
    let (rep, _) = run(&bundle(vec![device(1)], tests), &sidecars(5)).unwrap();
    assert_eq!(rep.reports.len(), 3);
}

#[test]
fn dtf_then_rl_share_a_report() {
    let tests = vec![test_record(&["CABLE-1"], "VSWR", "S1"), test_record(&["CABLE-1"], "dB", "S2")];
    let (rep, _) = run(&bundle(vec![device(1)], tests), &sidecars(2)).unwrap();
    assert_eq!(rep.reports.len(), 1);
    let r = &rep.reports[0];
    assert_eq!(r.tag, "CABLE-1");
    assert_eq!(r.dtf_state_id.as_deref(), Some("S1"));
    assert_eq!(r.rl_state_id.as_deref(), Some("S2"));
    assert_eq!(r.dtf_marker.as_ref().unwrap().text, "12.34");
    assert!(r.dtf_result.is_some() && r.rl_result.is_some());
    assert_eq!(r.rl_state.as_ref().unwrap().points, 201);
    assert_eq!(r.dtf_state.as_ref().unwrap().points, 517);
}

#[test]
fn rl_then_dtf_share_a_report() {
    let tests = vec![test_record(&["CABLE-1"], "dB", "S2"), test_record(&["CABLE-1"], "VSWR", "S1")];
    let (rep, _) = run(&bundle(vec![device(1)], tests), &sidecars(2)).unwrap();
    assert_eq!(rep.reports.len(), 1);
    let r = &rep.reports[0];
    assert_eq!(r.tag, "CABLE-1");
    assert!(r.dtf_result.is_some() && r.rl_result.is_some());
    assert_eq!(r.dtf_marker.as_ref().unwrap().text, "12.34");
}

#[test]
fn later_test_of_same_kind_overwrites() {
    let first = test_record(&["A"], "VSWR", "S1");
    let mut second = test_record(&["A"], "VSWR", "S1");
    second.results.test_result.average = s("9.9");
    let sc = vec![Some(sidecar("1,2,1.0")), Some(sidecar("1,2,2.0"))];
    let (rep, _) = run(&bundle(vec![device(1)], vec![first, second]), &sc).unwrap();
    assert_eq!(rep.reports.len(), 1);
    assert_eq!(rep.reports[0].dtf_result.as_ref().unwrap().avg.text, "9.9");
    assert_eq!(rep.reports[0].dtf_marker.as_ref().unwrap().text, "2.0");
    assert!(rep.reports[0].rl_result.is_none());
}

#[test]
fn no_tags_fails() {
    let b = bundle(vec![device(1)], vec![test_record(&[], "VSWR", "S1")]);
    assert_eq!(err(&b, &sidecars(1)), ReportError::NoTagsOnTest);
}

#[test]
fn multiple_tags_fail() {
    let b = bundle(vec![device(1)], vec![test_record(&["A", "B"], "VSWR", "S1")]);
    assert_eq!(err(&b, &sidecars(1)), ReportError::MultipleTagsOnTest);
}

#[test]
fn unknown_unit_fails() {
    let b = bundle(vec![device(1)], vec![test_record(&["A"], "Ohm", "S1")]);
    assert_eq!(err(&b, &sidecars(1)), ReportError::UnknownTestUnit(s("Ohm")));
}

#[test]
fn unresolved_state_fails() {
    let b = bundle(vec![device(1)], vec![test_record(&["A"], "VSWR", "S9")]);
    assert_eq!(err(&b, &sidecars(1)), ReportError::UnresolvedState);
}

#[test]
fn missing_csv_asset_fails_for_rl_too() {
    let mut t = test_record(&["A"], "dB", "S2");
    t.assets.asset = vec![s("shot.png")];
    let b = bundle(vec![device(1)], vec![t]);
    assert_eq!(err(&b, &sidecars(1)), ReportError::MissingCsvAsset);
}

#[test]
fn unreadable_sidecar_fails_for_dtf_only() {
    let b = bundle(vec![device(1)], vec![test_record(&["A"], "VSWR", "S1")]);
    assert_eq!(err(&b, &vec![None]), ReportError::AssetReadError);
    assert_eq!(err(&b, &vec![]), ReportError::AssetReadError);
    let b = bundle(vec![device(1)], vec![test_record(&["A"], "dB", "S2")]);
    assert!(run(&b, &vec![None]).is_ok());
}

#[test]
fn short_sidecar_fails_reconciliation() {
    let b = bundle(vec![device(1)], vec![test_record(&["A"], "VSWR", "S1")]);
    assert_eq!(err(&b, &vec![Some(s("1,2,3\n"))]), ReportError::MalformedAsset);
}

#[test]
fn dtf_test_on_rl_state_fails() {
    let b = bundle(vec![device(1)], vec![test_record(&["A"], "VSWR", "S2")]);
    assert_eq!(err(&b, &sidecars(1)), ReportError::MalformedState);
}

#[test]
fn result_error_fails_reconciliation() {
    let mut t = test_record(&["A"], "dB", "S2");
    t.calibrated = s("late");
    let b = bundle(vec![device(1)], vec![t]);
    assert_eq!(err(&b, &sidecars(1)), ReportError::ResultParseError);
}

#[test]
fn first_failing_test_decides() {
    let b = bundle(
        vec![device(1)],
        vec![test_record(&["A"], "Ohm", "S1"), test_record(&[], "VSWR", "S1")],
    );
    assert_eq!(err(&b, &sidecars(2)), ReportError::UnknownTestUnit(s("Ohm")));
}

#[test]
fn device_errors_come_first() {
    let b = bundle(vec![device(1), device(0)], vec![test_record(&[], "VSWR", "S1")]);
    assert_eq!(err(&b, &sidecars(1)), ReportError::MissingDeviceDetails);
}

#[test]
fn two_details_warn_in_full_run() {
    let b = bundle(vec![device(2)], vec![test_record(&["A"], "dB", "S2")]);
    let (rep, ws) = run(&b, &sidecars(1)).unwrap();
    assert_eq!(ws.len(), 1);
    assert_eq!((ws[0].expected.as_str(), ws[0].result.as_str()), ("1", "2"));
    assert_eq!(rep.devices[0].id, "ID0");
}

#[test]
fn reconciliation_repeats_exactly() {
    let tests = vec![
        test_record(&["A"], "VSWR", "S1"),
        test_record(&["B"], "dB", "S2"),
        test_record(&["A"], "dB", "S2"),
    ];
    let b = bundle(vec![device(2), device(1)], tests);
    let sc = sidecars(3);
    let (r1, w1) = run(&b, &sc).unwrap();
    let (r2, w2) = run(&b, &sc).unwrap();
    assert_eq!(format!("{:?}", r1), format!("{:?}", r2));
    assert_eq!(format!("{:?}", w1), format!("{:?}", w2));
}

#[test]
fn empty_test_list_gives_no_reports() {
    let (rep, ws) = run(&bundle(vec![], vec![]), &vec![]).unwrap();
    assert!(rep.devices.is_empty() && rep.reports.is_empty() && ws.is_empty());
}

#[test]
fn marker_with_exponent_or_special_value() {
    for text in ["1e5", "1.2E-3", "-4e+2", ".5", "7.", "inf", "-Infinity", "NaN", "+nan"] {
        let line = format!("1,2,{},5", text);
        let d = csv_marker_position(&sidecar(&line)).unwrap();
        assert_eq!(d.text, text);
        assert!(d.text.parse::<f64>().is_ok());
    }
    assert_eq!(csv_marker_position(&sidecar("1,2,1e5,5")).unwrap().text.parse::<f64>().unwrap(), 1e5);
}

#[test]
fn marker_rejects_what_f64_rejects() {
    for text in ["1e", "e5", "1e+", ".", "infx", "in", "1.5e2.0", "--1", "1 ", "0x10"] {
        assert!(text.parse::<f64>().is_err());
        let line = format!("1,2,{}", text);
        assert_eq!(csv_marker_position(&sidecar(&line)).unwrap_err(), ReportError::MarkerParseError);
    }
}

#[test]
fn cable_loss_with_exponent_projects() {
    let mut st = dtf_state("S1");
    st.cable_loss_db_per_m = Some(s("1e-3"));
    let d = DtfState::from_raw(&st).unwrap();
    assert_eq!(d.cable_loss_dbm.text, "1e-3");
}

#[test]
fn result_values_with_exponents_parse() {
    let mut t = test_record(&["C"], "VSWR", "S1");
    t.results.test_result.maximum = s("1.25e1:1.31E0");
    t.results.test_result.average = s("1.2E-3");
    t.results.test_result.ripple = s("inf");
    let r = parse_test_result(&t).unwrap();
    assert_eq!(r.max.0.text, "1.25e1");
    assert_eq!(r.max.1.text, "1.31E0");
    assert_eq!(r.avg.text, "1.2E-3");
    assert_eq!(r.ripple.text, "inf");
}
