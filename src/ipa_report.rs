//! The normalised report: one record per tested device, one record per cable
//! that merges its distance-to-fault and return-loss measurements, and the
//! rules that build them from a raw bundle.

use vstd::prelude::*;
use crate::numbers::{Decimal, is_decimal, parse_unsigned, parse_bool, parse_decimal};
use crate::text::{chars_of, nth_field, nth_line, ends_with, same_text, has_suffix, lemma_split_len};
use crate::timestamp::{
    CalibrationTimestamp, TimeOfDay, LocalDateTime, read_rfc3339, read_time_of_day, read_local_datetime,
};
use crate::raw_ipa_report;
use crate::reconcile_model::{
    TIME_FORMAT, test_type_of, first_index, state_ids, state_index, csv_suffix, csv_asset_index, device_error, device_matches, digit_char, decimal_digits, details_warning, device_warned, marker_of, u32_of, u64_of, pair_of, decimal_pair_matches, result_ok, result_matches, limit_matches, rl_state_ok, rl_state_matches, band_of, dtf_state_ok, dtf_state_matches, tag_of, sidecar_at, test_error, devices_error, tests_error, first_tests, bundle_error, warnings_match, CableEntry, entry_tags, merge_step, merged, dtf_side_matches, rl_side_matches, no_dtf_side, no_rl_side, report_matches, reports_match, devices_match, sweep_matches, report_tags, lemma_devices_error_prefix, lemma_tests_error_prefix, lemma_first_index_bounds, lemma_first_index_prefix,
};

verus! {

/// Why a bundle could not be reconciled.
#[derive(Debug, Clone, PartialEq, Eq)]
pub enum ReportError {
    MissingDeviceDetails,
    TimestampParse,
    UnresolvedState,
    UnknownTestUnit(String),
    NoTagsOnTest,
    MultipleTagsOnTest,
    MissingCsvAsset,
    ResultParseError,
    AssetReadError,
    MalformedAsset,
    MarkerParseError,
    /// A state lacks what its projection needs, or holds it in a form that
    /// does not read.
    MalformedState,
}

/// A non-fatal anomaly found while reconciling.
#[derive(Debug, Clone)]
pub struct Warning {
    pub message: String,
    pub expected: String,
    pub result: String,
}

/// The two measurement families.
#[derive(Debug, Clone, Copy, PartialEq, Eq)]
pub enum TestType {
    Dtf,
    ReturnLoss,
}

#[derive(Debug)]
pub struct SweepReport {
    pub devices: Vec<Device>,
    pub reports: Vec<Report>,
}

#[derive(Debug)]
pub struct Device {
    pub serial_number: String,
    pub model: String,
    pub id: String,
    pub sw_version: String,
    pub calibration_date: CalibrationTimestamp,
    pub signature: String,
}

/// The measurements of one cable, keyed by its tag.
#[derive(Debug)]
pub struct Report {
    pub tag: String,
    pub dtf_state_id: Option<String>,
    pub rl_state_id: Option<String>,
    pub dtf_state: Option<DtfState>,
    pub rl_state: Option<RlState>,
    pub dtf_marker: Option<Decimal>,
    pub dtf_result: Option<TestResult>,
    pub rl_result: Option<TestResult>,
}

#[derive(Debug)]
pub struct DtfState {
    pub id: String,
    pub test_type: String,
    pub rx_khz: (u64, u64),
    pub points: u64,
    pub limit_distance: u64,
    pub cable_loss_dbm: Decimal,
    pub limit: Limit,
}

#[derive(Debug, Clone)]
pub struct RlState {
    pub id: String,
    pub test_type: String,
    pub points: u64,
    pub limit: Limit,
}

#[derive(Debug, Clone)]
pub struct Limit {
    pub limit_type: String,
    pub measurement_type: String,
    pub unit: String,
    pub name: String,
    pub reference_value: String,
}

#[derive(Debug)]
pub struct TestResult {
    pub measurement_type: String,
    pub unit: String,
    pub p1: u32,
    pub p2: u32,
    pub max: (Decimal, Decimal),
    pub min: (Decimal, Decimal),
    pub avg: Decimal,
    pub ripple: Decimal,
    pub pass: bool,
    pub calibrated: TimeOfDay,
    pub time: LocalDateTime,
}

// ---------------------------------------------------------------------------
// The steps
// ---------------------------------------------------------------------------

/// Classifies a measurement by its unit: `VSWR` is distance-to-fault, `dB`
/// is return loss, anything else is refused.
pub fn classify(unit: &String) -> (r: Result<TestType, ReportError>)
    ensures
        match r {
            Ok(k) => test_type_of(unit@) == Some(k),
            Err(e) => test_type_of(unit@) is None && e == ReportError::UnknownTestUnit(*unit),
        },
{
    proof {
        reveal_strlit("VSWR");
        reveal_strlit("dB");
        assert("VSWR"@ =~= seq!['V', 'S', 'W', 'R']);
        assert("dB"@ =~= seq!['d', 'B']);
    }
    if same_text(unit.as_str(), "VSWR") {
        Ok(TestType::Dtf)
    } else if same_text(unit.as_str(), "dB") {
        Ok(TestType::ReturnLoss)
    } else {
        Err(ReportError::UnknownTestUnit(unit.clone()))
    }
}

/// Finds the first state whose identifier is `id`.
pub fn resolve_state(id: &String, states: &Vec<raw_ipa_report::State>) -> (r: Result<usize, ReportError>)
    ensures
        match r {
            Ok(i) => i as int == state_index(states@, id@) && i < states@.len(),
            Err(e) => state_index(states@, id@) < 0 && e == ReportError::UnresolvedState,
        },
{
    let ghost ids = state_ids(states@);
    let mut i: usize = 0;
    proof {
        assert(ids.take(0) =~= Seq::<Seq<char>>::empty());
    }
    while i < states.len()
        invariant
            0 <= i <= states@.len(),
            ids == state_ids(states@),
            first_index(ids.take(i as int), id@) == -1,
        decreases states.len() - i,
    {
        proof {
            assert(ids.take(i + 1).drop_last() =~= ids.take(i as int));
        }
        if states[i].id == *id {
            proof {
                lemma_first_index_prefix(ids, id@, i + 1);
            }
            return Ok(i);
        }
        i = i + 1;
    }
    proof {
        assert(ids.take(states@.len() as int) =~= ids);
    }
    Err(ReportError::UnresolvedState)
}

/// Finds the last asset path that ends in `.csv`.
pub fn find_csv_asset(assets: &Vec<String>) -> (r: Option<usize>)
    ensures
        match r {
            Some(i) => i as int == csv_asset_index(assets@) && i < assets@.len(),
            None => csv_asset_index(assets@) == -1,
        },
{
    proof {
        reveal_strlit(".csv");
        assert(".csv"@ =~= csv_suffix());
    }
    let mut found: Option<usize> = None;
    let mut i: usize = 0;
    proof {
        assert(assets@.take(0) =~= Seq::<String>::empty());
    }
    while i < assets.len()
        invariant
            0 <= i <= assets@.len(),
            ".csv"@ == csv_suffix(),
            match found {
                Some(j) => j as int == csv_asset_index(assets@.take(i as int)) && j < i,
                None => csv_asset_index(assets@.take(i as int)) == -1,
            },
        decreases assets.len() - i,
    {
        proof {
            assert(assets@.take(i + 1).drop_last() =~= assets@.take(i as int));
            assert(assets@.take(i + 1).last() == assets@[i as int]);
        }
        let is_csv = has_suffix(assets[i].as_str(), ".csv");
        assert(is_csv == ends_with(assets@.take(i + 1).last()@, csv_suffix()));
        if is_csv {
            found = Some(i);
        }
        i = i + 1;
    }
    proof {
        assert(assets@.take(assets@.len() as int) =~= assets@);
    }
    found
}

/// The path of the marker sidecar that a test names: its last asset that
/// ends in `.csv`.
pub fn csv_asset(test: &raw_ipa_report::Test) -> (r: Option<String>)
    ensures
        match r {
            Some(p) => csv_asset_index(test.assets.asset@) >= 0 && p@
                == test.assets.asset@[csv_asset_index(test.assets.asset@)]@,
            None => csv_asset_index(test.assets.asset@) == -1,
        },
{
    match find_csv_asset(&test.assets.asset) {
        Some(i) => Some(test.assets.asset[i].clone()),
        None => None,
    }
}

fn push_decimal(n: usize, out: &mut String)
    ensures
        final(out)@ == old(out)@ + decimal_digits(n as nat),
    decreases n,
{
    let digits = "0123456789";
    proof {
        reveal_strlit("0123456789");
        assert(digits@ =~= seq!['0', '1', '2', '3', '4', '5', '6', '7', '8', '9']);
    }
    if n >= 10 {
        push_decimal(n / 10, out);
    }
    let d = n % 10;
    let digit = digits.substring_char(d, d + 1);
    assert(digit@ =~= seq![digit_char(d as int)]);
    out.append(digit);
    assert(final(out)@ =~= old(out)@ + decimal_digits(n as nat));
}

/// `n` written in decimal.
pub fn decimal_text(n: usize) -> (r: String)
    ensures
        r@ == decimal_digits(n as nat),
{
    let mut out = String::new();
    push_decimal(n, &mut out);
    assert(out@ =~= decimal_digits(n as nat));
    out
}

/// Normalises one device entry: it needs a details sub-record, of which it
/// uses the first, warning when there are more.
pub fn normalize_device(device: &raw_ipa_report::Device, warnings: &mut Vec<Warning>) -> (r: Result<Device, ReportError>)
    ensures
        match r {
            Ok(d) => device_error(*device) is None && device_matches(*device, d) && device_warned(
                *device,
                old(warnings)@,
                final(warnings)@,
            ),
            Err(e) => device_error(*device) == Some(e) && final(warnings)@ == old(warnings)@,
        },
{
    let details = &device.details.device_details;
    if details.len() == 0 {
        return Err(ReportError::MissingDeviceDetails);
    }
    let item = &details[0];
    let calibration_date = match read_rfc3339(item.cal_date.as_str()) {
        Some(t) => t,
        None => return Err(ReportError::TimestampParse),
    };
    if details.len() > 1 {
        let w = Warning {
            message: String::from_str("Unexpected details count"),
            expected: String::from_str("1"),
            result: decimal_text(details.len()),
        };
        proof {
            reveal_strlit("1");
            assert("1"@ =~= seq!['1']);
        }
        warnings.push(w);
        proof {
            assert(final(warnings)@.take(old(warnings)@.len() as int) =~= old(warnings)@);
        }
    }
    Ok(Device {
        serial_number: device.serial_number.clone(),
        model: device.model.clone(),
        id: item.id.clone(),
        sw_version: item.sw_versions.clone(),
        calibration_date,
        signature: item.signature.clone(),
    })
}

/// Reads the distance marker out of the text of a sidecar file: the third
/// comma-separated field of its fourteenth line, as a number. Fewer than
/// fourteen lines is `MalformedAsset`; a missing or unreadable field is
/// `MarkerParseError`.
pub fn csv_marker_position(text: &str) -> (r: Result<Decimal, ReportError>)
    ensures
        match r {
            Ok(d) => marker_of(text@) == Ok::<Seq<char>, ReportError>(d.text@) && d.wf(),
            Err(e) => marker_of(text@) == Err::<Seq<char>, ReportError>(e),
        },
{
    let line = match nth_line(text, 13) {
        Some(l) => l,
        None => return Err(ReportError::MalformedAsset),
    };
    let field = match nth_field(line.as_str(), ',', 2) {
        Some((f, _)) => f,
        None => return Err(ReportError::MarkerParseError),
    };
    match parse_decimal(&field) {
        Some(d) => Ok(d),
        None => Err(ReportError::MarkerParseError),
    }
}

fn read_u32(s: &String) -> (r: Option<u32>)
    ensures
        match r {
            Some(v) => u32_of(s@) == Some(v as nat),
            None => u32_of(s@) is None,
        },
{
    match parse_unsigned(&chars_of(s.as_str()), u32::MAX as u64) {
        Some(v) => Some(v as u32),
        None => None,
    }
}

fn read_u64(s: &String) -> (r: Option<u64>)
    ensures
        match r {
            Some(v) => u64_of(s@) == Some(v as nat),
            None => u64_of(s@) is None,
        },
{
    parse_unsigned(&chars_of(s.as_str()), u64::MAX)
}

fn read_decimal(s: &String) -> (r: Option<Decimal>)
    ensures
        match r {
            Some(d) => is_decimal(s@) && d.text@ == s@,
            None => !is_decimal(s@),
        },
{
    parse_decimal(s)
}

/// Reads a `position:value` text into two decimals.
fn read_pair(s: &String) -> (r: Option<(Decimal, Decimal)>)
    ensures
        match r {
            Some(p) => pair_of(s@) == Some((p.0.text@, p.1.text@)),
            None => pair_of(s@) is None,
        },
{
    proof {
        lemma_split_len(s@, ':');
    }
    let first = match nth_field(s.as_str(), ':', 0) {
        Some((f, _)) => f,
        None => return None,
    };
    let second = match nth_field(s.as_str(), ':', 1) {
        Some((f, _)) => f,
        None => return None,
    };
    let a = match parse_decimal(&first) {
        Some(d) => d,
        None => return None,
    };
    let b = match parse_decimal(&second) {
        Some(d) => d,
        None => return None,
    };
    Some((a, b))
}

/// Reads a receive band `low:high` into two integers.
fn read_band(s: &String) -> (r: Option<(u64, u64)>)
    ensures
        match r {
            Some(p) => band_of(s@) == Some((p.0 as nat, p.1 as nat)),
            None => band_of(s@) is None,
        },
{
    proof {
        lemma_split_len(s@, ':');
    }
    let first = match nth_field(s.as_str(), ':', 0) {
        Some((f, _)) => f,
        None => return None,
    };
    let second = match nth_field(s.as_str(), ':', 1) {
        Some((f, _)) => f,
        None => return None,
    };
    let low = match parse_unsigned(&chars_of(first.as_str()), u64::MAX) {
        Some(v) => v,
        None => return None,
    };
    let high = match parse_unsigned(&chars_of(second.as_str()), u64::MAX) {
        Some(v) => v,
        None => return None,
    };
    Some((low, high))
}

/// Builds the measurement outcome of a test from its text fields.
pub fn parse_test_result(test: &raw_ipa_report::Test) -> (r: Result<TestResult, ReportError>)
    ensures
        match r {
            Ok(m) => result_ok(*test) && result_matches(*test, m),
            Err(e) => !result_ok(*test) && e == ReportError::ResultParseError,
        },
{
    let raw = &test.results.test_result;
    let p1 = match read_u32(&raw.p1) {
        Some(v) => v,
        None => return Err(ReportError::ResultParseError),
    };
    let p2 = match read_u32(&raw.p2) {
        Some(v) => v,
        None => return Err(ReportError::ResultParseError),
    };
    let max = match read_pair(&raw.maximum) {
        Some(p) => p,
        None => return Err(ReportError::ResultParseError),
    };
    let min = match read_pair(&raw.minimum) {
        Some(p) => p,
        None => return Err(ReportError::ResultParseError),
    };
    let avg = match read_decimal(&raw.average) {
        Some(d) => d,
        None => return Err(ReportError::ResultParseError),
    };
    let ripple = match read_decimal(&raw.ripple) {
        Some(d) => d,
        None => return Err(ReportError::ResultParseError),
    };
    let pass = match parse_bool(&chars_of(raw.pass.as_str())) {
        Some(b) => b,
        None => return Err(ReportError::ResultParseError),
    };
    let calibrated = match read_time_of_day(test.calibrated.as_str()) {
        Some(t) => t,
        None => return Err(ReportError::ResultParseError),
    };
    let time = match read_local_datetime(test.time.as_str(), TIME_FORMAT) {
        Some(t) => t,
        None => return Err(ReportError::ResultParseError),
    };
    Ok(TestResult {
        measurement_type: raw.measurement_type.clone(),
        unit: raw.unit.clone(),
        p1,
        p2,
        max,
        min,
        avg,
        ripple,
        pass,
        calibrated,
        time,
    })
}

/// Copies a limit definition.
pub fn limit_of(raw: &raw_ipa_report::Limit) -> (r: Limit)
    ensures
        limit_matches(r, *raw),
{
    Limit {
        limit_type: raw.limit_type.clone(),
        measurement_type: raw.measurement_type.clone(),
        unit: raw.unit.clone(),
        name: raw.name.clone(),
        reference_value: raw.reference.clone(),
    }
}

impl DtfState {
    /// Projects a state onto the distance-to-fault parameters; the band,
    /// distance and cable loss must be present and read, and the state must
    /// hold a limit.
    pub fn from_raw(input: &raw_ipa_report::State) -> (r: Result<DtfState, ReportError>)
        ensures
            match r {
                Ok(d) => dtf_state_ok(*input) && dtf_state_matches(d, *input),
                Err(e) => !dtf_state_ok(*input) && e == ReportError::MalformedState,
            },
    {
        let rx_khz = match &input.rx_khz {
            Some(t) => match read_band(t) {
                Some(b) => b,
                None => return Err(ReportError::MalformedState),
            },
            None => return Err(ReportError::MalformedState),
        };
        let points = match read_u64(&input.points) {
            Some(v) => v,
            None => return Err(ReportError::MalformedState),
        };
        let limit_distance = match &input.distance_m {
            Some(t) => match read_u64(t) {
                Some(v) => v,
                None => return Err(ReportError::MalformedState),
            },
            None => return Err(ReportError::MalformedState),
        };
        let cable_loss_dbm = match &input.cable_loss_db_per_m {
            Some(t) => match read_decimal(t) {
                Some(d) => d,
                None => return Err(ReportError::MalformedState),
            },
            None => return Err(ReportError::MalformedState),
        };
        if input.limits.limit.len() == 0 {
            return Err(ReportError::MalformedState);
        }
        Ok(DtfState {
            id: input.id.clone(),
            test_type: input.test_type.clone(),
            rx_khz,
            points,
            limit_distance,
            cable_loss_dbm,
            limit: limit_of(&input.limits.limit[0]),
        })
    }
}

impl RlState {
    /// Projects a state onto the return-loss parameters; the state must hold
    /// a limit.
    pub fn from_raw(input: &raw_ipa_report::State) -> (r: Result<RlState, ReportError>)
        ensures
            match r {
                Ok(s) => rl_state_ok(*input) && rl_state_matches(s, *input),
                Err(e) => !rl_state_ok(*input) && e == ReportError::MalformedState,
            },
    {
        let points = match read_u64(&input.points) {
            Some(v) => v,
            None => return Err(ReportError::MalformedState),
        };
        if input.limits.limit.len() == 0 {
            return Err(ReportError::MalformedState);
        }
        Ok(RlState {
            id: input.id.clone(),
            test_type: input.test_type.clone(),
            points,
            limit: limit_of(&input.limits.limit[0]),
        })
    }
}

/// Normalises every device entry, in order, with the warnings they give.
pub fn normalize_devices(devices: &Vec<raw_ipa_report::Device>) -> (r: Result<
    (Vec<Device>, Vec<Warning>),
    ReportError,
>)
    ensures
        match r {
            Ok((ds, ws)) => devices_error(devices@) is None && devices_match(devices@, ds@)
                && warnings_match(devices@, ws@),
            Err(e) => devices_error(devices@) == Some(e),
        },
{
    let mut ds: Vec<Device> = Vec::new();
    let mut ws: Vec<Warning> = Vec::new();
    let mut i: usize = 0;
    proof {
        assert(devices@.take(0) =~= Seq::<raw_ipa_report::Device>::empty());
    }
    while i < devices.len()
        invariant
            0 <= i <= devices@.len(),
            devices_error(devices@.take(i as int)) is None,
            devices_match(devices@.take(i as int), ds@),
            warnings_match(devices@.take(i as int), ws@),
        decreases devices.len() - i,
    {
        let ghost before = ws@;
        proof {
            assert(devices@.take(i + 1).drop_last() =~= devices@.take(i as int));
            assert(devices@.take(i + 1).last() == devices@[i as int]);
        }
        match normalize_device(&devices[i], &mut ws) {
            Ok(d) => {
                ds.push(d);
                proof {
                    let count = devices@[i as int].details.device_details@.len();
                    if count > 1 {
                        assert(ws@.drop_last() =~= before);
                    }
                    assert forall|k: int| 0 <= k < ds@.len() implies #[trigger] device_matches(
                        devices@.take(i + 1)[k],
                        ds@[k],
                    ) by {
                        if k < i {
                            assert(devices@.take(i + 1)[k] == devices@.take(i as int)[k]);
                        }
                    }
                }
            },
            Err(e) => {
                proof {
                    lemma_devices_error_prefix(devices@, i + 1);
                }
                return Err(e);
            },
        }
        i = i + 1;
    }
    proof {
        assert(devices@.take(devices@.len() as int) =~= devices@);
    }
    Ok((ds, ws))
}

/// Finds the first cable report with the given tag.
fn find_report(reports: &Vec<Report>, tag: &String) -> (r: Option<usize>)
    ensures
        match r {
            Some(j) => j as int == first_index(report_tags(reports@), tag@) && j < reports@.len(),
            None => first_index(report_tags(reports@), tag@) == -1,
        },
{
    let ghost tags = report_tags(reports@);
    let mut i: usize = 0;
    proof {
        assert(tags.take(0) =~= Seq::<Seq<char>>::empty());
    }
    while i < reports.len()
        invariant
            0 <= i <= reports@.len(),
            tags == report_tags(reports@),
            first_index(tags.take(i as int), tag@) == -1,
        decreases reports.len() - i,
    {
        proof {
            assert(tags.take(i + 1).drop_last() =~= tags.take(i as int));
        }
        if reports[i].tag == *tag {
            proof {
                lemma_first_index_prefix(tags, tag@, i + 1);
            }
            return Some(i);
        }
        i = i + 1;
    }
    proof {
        assert(tags.take(reports@.len() as int) =~= tags);
    }
    None
}

/// Takes the tests in order into cable reports; any test that fails aborts
/// the whole run with its error.
pub fn reconcile_tests(
    tests: &Vec<raw_ipa_report::Test>,
    states: &Vec<raw_ipa_report::State>,
    sidecars: &Vec<Option<String>>,
) -> (r: Result<Vec<Report>, ReportError>)
    ensures
        match r {
            Ok(rs) => tests_error(tests@, states@, sidecars@) is None && reports_match(
                rs@,
                merged(tests@),
                tests@,
                states@,
                sidecars@,
            ),
            Err(e) => tests_error(tests@, states@, sidecars@) == Some(e),
        },
{
    let mut reports: Vec<Report> = Vec::new();
    let mut i: usize = 0;
    proof {
        assert(tests@.take(0) =~= Seq::<raw_ipa_report::Test>::empty());
    }
    while i < tests.len()
        invariant
            0 <= i <= tests@.len(),
            tests_error(tests@.take(i as int), states@, sidecars@) is None,
            reports_match(reports@, merged(tests@.take(i as int)), tests@, states@, sidecars@),
        decreases tests.len() - i,
    {
        let test = &tests[i];
        let ghost prev = merged(tests@.take(i as int));
        proof {
            assert(tests@.take(i + 1).drop_last() =~= tests@.take(i as int));
            assert(tests@.take(i + 1).last() == tests@[i as int]);
        }
        let outcome = take_test(test, i, states, sidecars, &mut reports, Ghost(prev), Ghost(tests@));
        match outcome {
            Ok(()) => {},
            Err(e) => {
                proof {
                    lemma_tests_error_prefix(tests@, states@, sidecars@, i + 1);
                }
                return Err(e);
            },
        }
        i = i + 1;
    }
    proof {
        assert(tests@.take(tests@.len() as int) =~= tests@);
    }
    Ok(reports)
}

/// Takes test `i` into the cable reports (see `merge_step`), or says why it
/// cannot be.
fn take_test(
    test: &raw_ipa_report::Test,
    i: usize,
    states: &Vec<raw_ipa_report::State>,
    sidecars: &Vec<Option<String>>,
    reports: &mut Vec<Report>,
    prev: Ghost<Seq<CableEntry>>,
    tests: Ghost<Seq<raw_ipa_report::Test>>,
) -> (r: Result<(), ReportError>)
    requires
        i < tests@.len(),
        tests@[i as int] == *test,
        reports_match(old(reports)@, prev@, tests@, states@, sidecars@),
    ensures
        match r {
            Ok(()) => test_error(*test, states@, sidecar_at(sidecars@, i as int)) is None
                && reports_match(
                final(reports)@,
                merge_step(prev@, *test, i as nat),
                tests@,
                states@,
                sidecars@,
            ),
            Err(e) => test_error(*test, states@, sidecar_at(sidecars@, i as int)) == Some(e),
        },
{
    if test.tags.len() == 0 {
        return Err(ReportError::NoTagsOnTest);
    }
    if test.tags.len() > 1 {
        return Err(ReportError::MultipleTagsOnTest);
    }
    let kind = match classify(&test.results.test_result.unit) {
        Ok(k) => k,
        Err(e) => return Err(e),
    };
    let si = match resolve_state(&test.state_id, states) {
        Ok(si) => si,
        Err(e) => return Err(e),
    };
    // The asset is required of every test, not only of those that read a marker.
    if find_csv_asset(&test.assets.asset).is_none() {
        return Err(ReportError::MissingCsvAsset);
    }
    let result = match parse_test_result(test) {
        Ok(m) => m,
        Err(e) => return Err(e),
    };
    let tag = &test.tags[0].tag;
    proof {
        assert(report_tags(old(reports)@) =~= entry_tags(prev@)) by {
            assert forall|k: int| 0 <= k < old(reports)@.len() implies report_tags(
                old(reports)@,
            )[k] == entry_tags(prev@)[k] by {
                assert(report_matches(old(reports)@[k], prev@[k], tests@, states@, sidecars@));
            }
        }
        lemma_first_index_bounds(entry_tags(prev@), tag@);
    }
    let found = find_report(reports, tag);
    let ghost next = merge_step(prev@, *test, i as nat);
    match kind {
        TestType::Dtf => {
            let state = match DtfState::from_raw(&states[si]) {
                Ok(st) => st,
                Err(e) => return Err(e),
            };
            let marker = if i < sidecars.len() {
                match &sidecars[i] {
                    Some(text) => match csv_marker_position(text.as_str()) {
                        Ok(d) => d,
                        Err(e) => return Err(e),
                    },
                    None => return Err(ReportError::AssetReadError),
                }
            } else {
                return Err(ReportError::AssetReadError);
            };
            match found {
                Some(j) => {
                    let mut rep = reports.remove(j);
                    rep.dtf_state_id = Some(test.state_id.clone());
                    rep.dtf_state = Some(state);
                    rep.dtf_result = Some(result);
                    rep.dtf_marker = Some(marker);
                    reports.insert(j, rep);
                    proof {
                        assert(final(reports)@ =~= old(reports)@.update(j as int, rep));
                        assert forall|k: int| 0 <= k < final(reports)@.len() implies #[trigger] report_matches(
                            final(reports)@[k],
                            next[k],
                            tests@,
                            states@,
                            sidecars@,
                        ) by {
                            assert(report_matches(old(reports)@[k], prev@[k], tests@, states@, sidecars@));
                        }
                    }
                },
                None => {
                    reports.push(
                        Report {
                            tag: tag.clone(),
                            dtf_state_id: Some(test.state_id.clone()),
                            rl_state_id: None,
                            dtf_state: Some(state),
                            rl_state: None,
                            dtf_marker: Some(marker),
                            dtf_result: Some(result),
                            rl_result: None,
                        },
                    );
                    proof {
                        assert forall|k: int| 0 <= k < final(reports)@.len() implies #[trigger] report_matches(
                            final(reports)@[k],
                            next[k],
                            tests@,
                            states@,
                            sidecars@,
                        ) by {
                            if k < old(reports)@.len() {
                                assert(report_matches(old(reports)@[k], prev@[k], tests@, states@, sidecars@));
                            }
                        }
                    }
                },
            }
        },
        TestType::ReturnLoss => {
            let state = match RlState::from_raw(&states[si]) {
                Ok(st) => st,
                Err(e) => return Err(e),
            };
            match found {
                Some(j) => {
                    let mut rep = reports.remove(j);
                    rep.rl_state_id = Some(test.state_id.clone());
                    rep.rl_state = Some(state);
                    rep.rl_result = Some(result);
                    reports.insert(j, rep);
                    proof {
                        assert(final(reports)@ =~= old(reports)@.update(j as int, rep));
                        assert forall|k: int| 0 <= k < final(reports)@.len() implies #[trigger] report_matches(
                            final(reports)@[k],
                            next[k],
                            tests@,
                            states@,
                            sidecars@,
                        ) by {
                            assert(report_matches(old(reports)@[k], prev@[k], tests@, states@, sidecars@));
                        }
                    }
                },
                None => {
                    reports.push(
                        Report {
                            tag: tag.clone(),
                            dtf_state_id: None,
                            rl_state_id: Some(test.state_id.clone()),
                            dtf_state: None,
                            rl_state: Some(state),
                            dtf_marker: None,
                            dtf_result: None,
                            rl_result: Some(result),
                        },
                    );
                    proof {
                        assert forall|k: int| 0 <= k < final(reports)@.len() implies #[trigger] report_matches(
                            final(reports)@[k],
                            next[k],
                            tests@,
                            states@,
                            sidecars@,
                        ) by {
                            if k < old(reports)@.len() {
                                assert(report_matches(old(reports)@[k], prev@[k], tests@, states@, sidecars@));
                            }
                        }
                    }
                },
            }
        },
    }
    Ok(())
}

impl SweepReport {
    /// Reconciles a bundle. `sidecars[i]` is the text of the marker sidecar
    /// that test `i` of the first report names, or `None` where it could
    /// not be read; only distance-to-fault tests consult it.
    pub fn from_raw_ipa_report(input: &raw_ipa_report::Bundle, sidecars: &Vec<Option<String>>) -> (r:
        Result<(SweepReport, Vec<Warning>), ReportError>)
        requires
            input.reports.report@.len() >= 1,
        ensures
            match r {
                Ok((rep, ws)) => bundle_error(*input, sidecars@) is None && sweep_matches(
                    *input,
                    sidecars@,
                    rep,
                    ws@,
                ),
                Err(e) => bundle_error(*input, sidecars@) == Some(e),
            },
    {
        let (devices, warnings) = match normalize_devices(&input.devices.device) {
            Ok(p) => p,
            Err(e) => return Err(e),
        };
        let reports = match reconcile_tests(
            &input.reports.report[0].items.test,
            &input.states.state,
            sidecars,
        ) {
            Ok(rs) => rs,
            Err(e) => return Err(e),
        };
        Ok((SweepReport { devices, reports }, warnings))
    }
}

} // verus!
