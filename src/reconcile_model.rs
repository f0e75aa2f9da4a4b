//! What reconciliation computes, stated over the raw bundle: the outcome of
//! each step, the first error of a bundle, and the merge of tests into
//! cables.

use vstd::prelude::*;
use crate::numbers::{Decimal, is_decimal, unsigned_of, bool_of};
use crate::text::{split_on, line_at, ends_with};
use crate::timestamp::{rfc3339_of, time_of_day_of, local_datetime_of};
use crate::raw_ipa_report;
use crate::ipa_report::{
    Device, DtfState, Limit, Report, ReportError, RlState, SweepReport, TestResult, TestType, Warning,
};

verus! {

// ---------------------------------------------------------------------------
// Each step
// ---------------------------------------------------------------------------

/// The format of a measurement's date and time.
pub const TIME_FORMAT: &'static str = "%Y-%m-%d %H:%M";

pub open spec fn test_type_of(unit: Seq<char>) -> Option<TestType> {
    if unit == seq!['V', 'S', 'W', 'R'] {
        Some(TestType::Dtf)
    } else if unit == seq!['d', 'B'] {
        Some(TestType::ReturnLoss)
    } else {
        None
    }
}

/// The first position of `key` in `keys`, or -1.
pub open spec fn first_index(keys: Seq<Seq<char>>, key: Seq<char>) -> int
    decreases keys.len(),
{
    if keys.len() == 0 {
        -1
    } else {
        let j = first_index(keys.drop_last(), key);
        if j >= 0 {
            j
        } else if keys.last() == key {
            keys.len() - 1
        } else {
            -1
        }
    }
}

pub open spec fn state_ids(states: Seq<raw_ipa_report::State>) -> Seq<Seq<char>> {
    states.map_values(|s: raw_ipa_report::State| s.id@)
}

/// Where the state with identifier `id` stands, or -1.
pub open spec fn state_index(states: Seq<raw_ipa_report::State>, id: Seq<char>) -> int {
    first_index(state_ids(states), id)
}

pub open spec fn csv_suffix() -> Seq<char> {
    seq!['.', 'c', 's', 'v']
}

/// Where the last asset path that ends in `.csv` stands, or -1.
pub open spec fn csv_asset_index(assets: Seq<String>) -> int
    decreases assets.len(),
{
    if assets.len() == 0 {
        -1
    } else if ends_with(assets.last()@, csv_suffix()) {
        assets.len() - 1
    } else {
        csv_asset_index(assets.drop_last())
    }
}

pub open spec fn device_error(d: raw_ipa_report::Device) -> Option<ReportError> {
    if d.details.device_details@.len() == 0 {
        Some(ReportError::MissingDeviceDetails)
    } else if rfc3339_of(d.details.device_details@[0].cal_date@) is None {
        Some(ReportError::TimestampParse)
    } else {
        None
    }
}

pub open spec fn device_matches(raw: raw_ipa_report::Device, d: Device) -> bool {
    let item = raw.details.device_details@[0];
    &&& d.serial_number@ == raw.serial_number@
    &&& d.model@ == raw.model@
    &&& d.id@ == item.id@
    &&& d.sw_version@ == item.sw_versions@
    &&& Some(d.calibration_date) == rfc3339_of(item.cal_date@)
    &&& d.signature@ == item.signature@
}

pub open spec fn digit_char(d: int) -> char {
    seq!['0', '1', '2', '3', '4', '5', '6', '7', '8', '9'][d]
}

/// `n` written in decimal.
pub open spec fn decimal_digits(n: nat) -> Seq<char>
    decreases n,
{
    if n < 10 {
        seq![digit_char(n as int)]
    } else {
        decimal_digits(n / 10).push(digit_char((n % 10) as int))
    }
}

/// The warning for a device with `count` details sub-records.
pub open spec fn details_warning(w: Warning, count: nat) -> bool {
    &&& w.message@ == "Unexpected details count"@
    &&& w.expected@ == seq!['1']
    &&& w.result@ == decimal_digits(count)
}

/// `new` is `old` with the warning, if any, that `d` gives.
pub open spec fn device_warned(d: raw_ipa_report::Device, old: Seq<Warning>, new: Seq<Warning>) -> bool {
    let count = d.details.device_details@.len();
    if count > 1 {
        &&& new.len() == old.len() + 1
        &&& new.take(old.len() as int) == old
        &&& details_warning(new.last(), count)
    } else {
        new == old
    }
}

/// What the marker sidecar text holds: the third comma-separated field of
/// its fourteenth line.
pub open spec fn marker_of(text: Seq<char>) -> Result<Seq<char>, ReportError> {
    match line_at(text, 13) {
        None => Err(ReportError::MalformedAsset),
        Some(line) => {
            let fields = split_on(line, ',');
            if fields.len() < 3 || !is_decimal(fields[2]) {
                Err(ReportError::MarkerParseError)
            } else {
                Ok(fields[2])
            }
        },
    }
}

pub open spec fn u32_of(s: Seq<char>) -> Option<nat> {
    unsigned_of(s, u32::MAX as nat)
}

pub open spec fn u64_of(s: Seq<char>) -> Option<nat> {
    unsigned_of(s, u64::MAX as nat)
}

/// A `position:value` text: the first two `:`-separated fields, both decimal.
pub open spec fn pair_of(s: Seq<char>) -> Option<(Seq<char>, Seq<char>)> {
    let f = split_on(s, ':');
    if f.len() >= 2 && is_decimal(f[0]) && is_decimal(f[1]) {
        Some((f[0], f[1]))
    } else {
        None
    }
}

pub open spec fn decimal_pair_matches(p: (Decimal, Decimal), s: Seq<char>) -> bool {
    pair_of(s) == Some((p.0.text@, p.1.text@))
}

/// Every numeric, flag and time field of the test's result reads.
pub open spec fn result_ok(t: raw_ipa_report::Test) -> bool {
    let r = t.results.test_result;
    &&& u32_of(r.p1@) is Some
    &&& u32_of(r.p2@) is Some
    &&& pair_of(r.maximum@) is Some
    &&& pair_of(r.minimum@) is Some
    &&& is_decimal(r.average@)
    &&& is_decimal(r.ripple@)
    &&& bool_of(r.pass@) is Some
    &&& time_of_day_of(t.calibrated@) is Some
    &&& local_datetime_of(t.time@, TIME_FORMAT@) is Some
}

pub open spec fn result_matches(t: raw_ipa_report::Test, m: TestResult) -> bool {
    let r = t.results.test_result;
    &&& m.measurement_type@ == r.measurement_type@
    &&& m.unit@ == r.unit@
    &&& u32_of(r.p1@) == Some(m.p1 as nat)
    &&& u32_of(r.p2@) == Some(m.p2 as nat)
    &&& decimal_pair_matches(m.max, r.maximum@)
    &&& decimal_pair_matches(m.min, r.minimum@)
    &&& m.avg.text@ == r.average@
    &&& m.ripple.text@ == r.ripple@
    &&& bool_of(r.pass@) == Some(m.pass)
    &&& time_of_day_of(t.calibrated@) == Some(m.calibrated)
    &&& local_datetime_of(t.time@, TIME_FORMAT@) == Some(m.time)
}

pub open spec fn limit_matches(l: Limit, raw: raw_ipa_report::Limit) -> bool {
    &&& l.limit_type@ == raw.limit_type@
    &&& l.measurement_type@ == raw.measurement_type@
    &&& l.unit@ == raw.unit@
    &&& l.name@ == raw.name@
    &&& l.reference_value@ == raw.reference@
}

pub open spec fn rl_state_ok(s: raw_ipa_report::State) -> bool {
    &&& u64_of(s.points@) is Some
    &&& s.limits.limit@.len() > 0
}

pub open spec fn rl_state_matches(r: RlState, s: raw_ipa_report::State) -> bool {
    &&& r.id@ == s.id@
    &&& r.test_type@ == s.test_type@
    &&& u64_of(s.points@) == Some(r.points as nat)
    &&& limit_matches(r.limit, s.limits.limit@[0])
}

/// The receive band `low:high` of a state, as two integers.
pub open spec fn band_of(s: Seq<char>) -> Option<(nat, nat)> {
    let f = split_on(s, ':');
    if f.len() >= 2 && u64_of(f[0]) is Some && u64_of(f[1]) is Some {
        Some((u64_of(f[0])->0, u64_of(f[1])->0))
    } else {
        None
    }
}

pub open spec fn dtf_state_ok(s: raw_ipa_report::State) -> bool {
    &&& s.rx_khz is Some && band_of(s.rx_khz->0@) is Some
    &&& u64_of(s.points@) is Some
    &&& s.distance_m is Some && u64_of(s.distance_m->0@) is Some
    &&& s.cable_loss_db_per_m is Some && is_decimal(s.cable_loss_db_per_m->0@)
    &&& s.limits.limit@.len() > 0
}

pub open spec fn dtf_state_matches(d: DtfState, s: raw_ipa_report::State) -> bool {
    &&& d.id@ == s.id@
    &&& d.test_type@ == s.test_type@
    &&& band_of(s.rx_khz->0@) == Some((d.rx_khz.0 as nat, d.rx_khz.1 as nat))
    &&& u64_of(s.points@) == Some(d.points as nat)
    &&& u64_of(s.distance_m->0@) == Some(d.limit_distance as nat)
    &&& d.cable_loss_dbm.text@ == s.cable_loss_db_per_m->0@
    &&& limit_matches(d.limit, s.limits.limit@[0])
}

// ---------------------------------------------------------------------------
// The whole reconciliation
// ---------------------------------------------------------------------------

/// The tag of a test that carries exactly one.
pub open spec fn tag_of(t: raw_ipa_report::Test) -> Seq<char> {
    t.tags@[0].tag@
}

/// The sidecar text handed in for test `i`: `None` where it could not be read.
pub open spec fn sidecar_at(sidecars: Seq<Option<String>>, i: int) -> Option<Seq<char>> {
    if 0 <= i < sidecars.len() {
        match sidecars[i] {
            Some(s) => Some(s@),
            None => None,
        }
    } else {
        None
    }
}

/// Why test `t` cannot be taken in, checked in this order; `None` where it can.
/// Every test must name a `.csv` asset, return-loss tests included, although
/// only distance-to-fault tests read the marker from it.
pub open spec fn test_error(
    t: raw_ipa_report::Test,
    states: Seq<raw_ipa_report::State>,
    sidecar: Option<Seq<char>>,
) -> Option<ReportError> {
    let unit = t.results.test_result.unit;
    if t.tags@.len() == 0 {
        Some(ReportError::NoTagsOnTest)
    } else if t.tags@.len() > 1 {
        Some(ReportError::MultipleTagsOnTest)
    } else if test_type_of(unit@) is None {
        Some(ReportError::UnknownTestUnit(unit))
    } else if state_index(states, t.state_id@) < 0 {
        Some(ReportError::UnresolvedState)
    } else if csv_asset_index(t.assets.asset@) < 0 {
        Some(ReportError::MissingCsvAsset)
    } else if !result_ok(t) {
        Some(ReportError::ResultParseError)
    } else {
        let s = states[state_index(states, t.state_id@)];
        if test_type_of(unit@) == Some(TestType::ReturnLoss) {
            if rl_state_ok(s) {
                None
            } else {
                Some(ReportError::MalformedState)
            }
        } else if !dtf_state_ok(s) {
            Some(ReportError::MalformedState)
        } else {
            match sidecar {
                None => Some(ReportError::AssetReadError),
                Some(text) => match marker_of(text) {
                    Ok(_) => None,
                    Err(e) => Some(e),
                },
            }
        }
    }
}

/// The error of the first device that fails, if any.
pub open spec fn devices_error(devs: Seq<raw_ipa_report::Device>) -> Option<ReportError>
    decreases devs.len(),
{
    if devs.len() == 0 {
        None
    } else {
        match devices_error(devs.drop_last()) {
            Some(e) => Some(e),
            None => device_error(devs.last()),
        }
    }
}

/// The error of the first test that fails, if any.
pub open spec fn tests_error(
    tests: Seq<raw_ipa_report::Test>,
    states: Seq<raw_ipa_report::State>,
    sidecars: Seq<Option<String>>,
) -> Option<ReportError>
    decreases tests.len(),
{
    if tests.len() == 0 {
        None
    } else {
        match tests_error(tests.drop_last(), states, sidecars) {
            Some(e) => Some(e),
            None => test_error(tests.last(), states, sidecar_at(sidecars, tests.len() - 1)),
        }
    }
}

/// The tests of the bundle's first report.
pub open spec fn first_tests(b: raw_ipa_report::Bundle) -> Seq<raw_ipa_report::Test> {
    b.reports.report@[0].items.test@
}

/// Why the bundle cannot be reconciled: devices are checked first, then tests.
pub open spec fn bundle_error(b: raw_ipa_report::Bundle, sidecars: Seq<Option<String>>) -> Option<
    ReportError,
> {
    match devices_error(b.devices.device@) {
        Some(e) => Some(e),
        None => tests_error(first_tests(b), b.states.state@, sidecars),
    }
}

/// `ws` holds, in device order, one warning for each device with more than
/// one details sub-record.
pub open spec fn warnings_match(devs: Seq<raw_ipa_report::Device>, ws: Seq<Warning>) -> bool
    decreases devs.len(),
{
    if devs.len() == 0 {
        ws.len() == 0
    } else {
        let count = devs.last().details.device_details@.len();
        if count > 1 {
            &&& ws.len() > 0
            &&& details_warning(ws.last(), count)
            &&& warnings_match(devs.drop_last(), ws.drop_last())
        } else {
            warnings_match(devs.drop_last(), ws)
        }
    }
}

/// A cable in the merge: its tag and the positions of the tests that gave
/// its distance-to-fault and return-loss sides.
pub struct CableEntry {
    pub tag: Seq<char>,
    pub dtf: Option<nat>,
    pub rl: Option<nat>,
}

pub open spec fn entry_tags(es: Seq<CableEntry>) -> Seq<Seq<char>> {
    es.map_values(|e: CableEntry| e.tag)
}

/// Takes test `i` into the cables: the cable with its tag gets the side of
/// its kind, replacing what was there; a new tag adds a cable at the end.
pub open spec fn merge_step(prev: Seq<CableEntry>, t: raw_ipa_report::Test, i: nat) -> Seq<CableEntry> {
    let tag = tag_of(t);
    let j = first_index(entry_tags(prev), tag);
    let dtf = test_type_of(t.results.test_result.unit@) == Some(TestType::Dtf);
    if j >= 0 {
        let e = prev[j];
        prev.update(
            j,
            if dtf {
                CableEntry { tag: e.tag, dtf: Some(i), rl: e.rl }
            } else {
                CableEntry { tag: e.tag, dtf: e.dtf, rl: Some(i) }
            },
        )
    } else {
        prev.push(
            if dtf {
                CableEntry { tag, dtf: Some(i), rl: None }
            } else {
                CableEntry { tag, dtf: None, rl: Some(i) }
            },
        )
    }
}

/// The cables that the tests give, in the order their tags first appear.
pub open spec fn merged(tests: Seq<raw_ipa_report::Test>) -> Seq<CableEntry>
    decreases tests.len(),
{
    if tests.len() == 0 {
        Seq::empty()
    } else {
        merge_step(merged(tests.drop_last()), tests.last(), (tests.len() - 1) as nat)
    }
}

pub open spec fn dtf_side_matches(
    r: Report,
    t: raw_ipa_report::Test,
    states: Seq<raw_ipa_report::State>,
    sidecar: Option<Seq<char>>,
) -> bool {
    let s = states[state_index(states, t.state_id@)];
    &&& r.dtf_state_id is Some && r.dtf_state_id->0@ == t.state_id@
    &&& r.dtf_state is Some && dtf_state_matches(r.dtf_state->0, s)
    &&& r.dtf_result is Some && result_matches(t, r.dtf_result->0)
    &&& r.dtf_marker is Some && sidecar is Some && marker_of(sidecar->0) == Ok::<
        Seq<char>,
        ReportError,
    >(r.dtf_marker->0.text@)
}

pub open spec fn rl_side_matches(
    r: Report,
    t: raw_ipa_report::Test,
    states: Seq<raw_ipa_report::State>,
) -> bool {
    let s = states[state_index(states, t.state_id@)];
    &&& r.rl_state_id is Some && r.rl_state_id->0@ == t.state_id@
    &&& r.rl_state is Some && rl_state_matches(r.rl_state->0, s)
    &&& r.rl_result is Some && result_matches(t, r.rl_result->0)
}

pub open spec fn no_dtf_side(r: Report) -> bool {
    r.dtf_state_id is None && r.dtf_state is None && r.dtf_result is None && r.dtf_marker is None
}

pub open spec fn no_rl_side(r: Report) -> bool {
    r.rl_state_id is None && r.rl_state is None && r.rl_result is None
}

/// Report `r` holds what cable `e` says, read from the tests it names.
pub open spec fn report_matches(
    r: Report,
    e: CableEntry,
    tests: Seq<raw_ipa_report::Test>,
    states: Seq<raw_ipa_report::State>,
    sidecars: Seq<Option<String>>,
) -> bool {
    &&& r.tag@ == e.tag
    &&& match e.dtf {
        Some(i) => dtf_side_matches(r, tests[i as int], states, sidecar_at(sidecars, i as int)),
        None => no_dtf_side(r),
    }
    &&& match e.rl {
        Some(i) => rl_side_matches(r, tests[i as int], states),
        None => no_rl_side(r),
    }
}

pub open spec fn reports_match(
    rs: Seq<Report>,
    es: Seq<CableEntry>,
    tests: Seq<raw_ipa_report::Test>,
    states: Seq<raw_ipa_report::State>,
    sidecars: Seq<Option<String>>,
) -> bool {
    &&& rs.len() == es.len()
    &&& forall|k: int|
        0 <= k < rs.len() ==> #[trigger] report_matches(rs[k], es[k], tests, states, sidecars)
}

pub open spec fn devices_match(raw: Seq<raw_ipa_report::Device>, ds: Seq<Device>) -> bool {
    &&& ds.len() == raw.len()
    &&& forall|k: int| 0 <= k < ds.len() ==> #[trigger] device_matches(raw[k], ds[k])
}

/// The reconciled report and warnings that a bundle gives.
pub open spec fn sweep_matches(
    b: raw_ipa_report::Bundle,
    sidecars: Seq<Option<String>>,
    rep: SweepReport,
    ws: Seq<Warning>,
) -> bool {
    &&& devices_match(b.devices.device@, rep.devices@)
    &&& warnings_match(b.devices.device@, ws)
    &&& reports_match(
        rep.reports@,
        merged(first_tests(b)),
        first_tests(b),
        b.states.state@,
        sidecars,
    )
}

pub open spec fn report_tags(rs: Seq<Report>) -> Seq<Seq<char>> {
    rs.map_values(|r: Report| r.tag@)
}

pub proof fn lemma_devices_error_prefix(devs: Seq<raw_ipa_report::Device>, i: int)
    requires
        0 <= i <= devs.len(),
        devices_error(devs.take(i)) is Some,
    ensures
        devices_error(devs) == devices_error(devs.take(i)),
    decreases devs.len() - i,
{
    if i < devs.len() {
        assert(devs.take(i + 1).drop_last() =~= devs.take(i));
        lemma_devices_error_prefix(devs, i + 1);
    } else {
        assert(devs.take(i) =~= devs);
    }
}

pub proof fn lemma_tests_error_prefix(
    tests: Seq<raw_ipa_report::Test>,
    states: Seq<raw_ipa_report::State>,
    sidecars: Seq<Option<String>>,
    i: int,
)
    requires
        0 <= i <= tests.len(),
        tests_error(tests.take(i), states, sidecars) is Some,
    ensures
        tests_error(tests, states, sidecars) == tests_error(tests.take(i), states, sidecars),
    decreases tests.len() - i,
{
    if i < tests.len() {
        assert(tests.take(i + 1).drop_last() =~= tests.take(i));
        lemma_tests_error_prefix(tests, states, sidecars, i + 1);
    } else {
        assert(tests.take(i) =~= tests);
    }
}

// ---------------------------------------------------------------------------
// Lemmas on the lookups
// ---------------------------------------------------------------------------

pub proof fn lemma_first_index_bounds(keys: Seq<Seq<char>>, key: Seq<char>)
    ensures
        -1 <= first_index(keys, key) < keys.len(),
        first_index(keys, key) >= 0 ==> keys[first_index(keys, key)] == key,
    decreases keys.len(),
{
    if keys.len() > 0 {
        lemma_first_index_bounds(keys.drop_last(), key);
    }
}

/// A key found in a prefix is found at the same place in the whole sequence.
pub proof fn lemma_first_index_prefix(keys: Seq<Seq<char>>, key: Seq<char>, i: int)
    requires
        0 <= i <= keys.len(),
        first_index(keys.take(i), key) >= 0,
    ensures
        first_index(keys, key) == first_index(keys.take(i), key),
    decreases keys.len() - i,
{
    if i < keys.len() {
        assert(keys.take(i + 1).drop_last() =~= keys.take(i));
        lemma_first_index_prefix(keys, key, i + 1);
    } else {
        assert(keys.take(i) =~= keys);
    }
}

} // verus!
