//! What reconciliation guarantees of every bundle, proved from the contract
//! of `SweepReport::from_raw_ipa_report`.

use vstd::prelude::*;
use crate::raw_ipa_report;
use crate::numbers::Decimal;
use crate::ipa_report::{Device, DtfState, Limit, Report, ReportError, RlState, SweepReport, TestResult, Warning};
use crate::reconcile_model::{
    CableEntry, bundle_error, devices_error,
    entry_tags, first_index, first_tests, merged, merge_step, sweep_matches, tag_of, test_type_of,
    tests_error, lemma_first_index_bounds, lemma_devices_error_prefix, lemma_tests_error_prefix,
    report_matches, device_matches, sidecar_at, warnings_match, test_error, decimal_digits, digit_char,
};

verus! {

/// The tags of the tests, in order.
pub open spec fn test_tags(tests: Seq<raw_ipa_report::Test>) -> Seq<Seq<char>> {
    tests.map_values(|t: raw_ipa_report::Test| tag_of(t))
}

proof fn lemma_first_index_absent(keys: Seq<Seq<char>>, key: Seq<char>)
    requires
        first_index(keys, key) == -1,
    ensures
        !keys.contains(key),
    decreases keys.len(),
{
    if keys.len() > 0 {
        lemma_first_index_absent(keys.drop_last(), key);
        assert forall|k: int| 0 <= k < keys.len() implies keys[k] != key by {
            if k < keys.len() - 1 {
                assert(keys[k] == keys.drop_last()[k]);
            }
        }
    }
}

/// The cables of the merge: each holds at least one side, each side names a
/// test with the cable's tag, no two cables share a tag, and the cables'
/// tags are the tests' tags.
pub proof fn lemma_merged_shape(tests: Seq<raw_ipa_report::Test>)
    ensures
        forall|k: int| 0 <= k < merged(tests).len() ==> (#[trigger] merged(tests)[k]).dtf is Some
            || merged(tests)[k].rl is Some,
        forall|k: int|
            0 <= k < merged(tests).len() && (#[trigger] merged(tests)[k]).dtf is Some ==> {
                let i = merged(tests)[k].dtf->0;
                i < tests.len() && tag_of(tests[i as int]) == merged(tests)[k].tag
            },
        forall|k: int|
            0 <= k < merged(tests).len() && (#[trigger] merged(tests)[k]).rl is Some ==> {
                let i = merged(tests)[k].rl->0;
                i < tests.len() && tag_of(tests[i as int]) == merged(tests)[k].tag
            },
        entry_tags(merged(tests)).no_duplicates(),
        entry_tags(merged(tests)).to_set() == test_tags(tests).to_set(),
    decreases tests.len(),
{
    if tests.len() > 0 {
        let front = tests.drop_last();
        lemma_merged_shape(front);
        let prev = merged(front);
        let t = tests.last();
        let n = (tests.len() - 1) as nat;
        let tag = tag_of(t);
        let next = merged(tests);
        assert(next == merge_step(prev, t, n));
        assert forall|i: int| 0 <= i < front.len() implies front[i] == tests[i] by {}
        assert(test_tags(tests) =~= test_tags(front).push(tag));
        let j = first_index(entry_tags(prev), tag);
        lemma_first_index_bounds(entry_tags(prev), tag);
        if j >= 0 {
            assert(entry_tags(next) =~= entry_tags(prev));
            assert(entry_tags(prev)[j] == tag);
            assert(entry_tags(prev).contains(tag));
            assert(test_tags(tests).to_set() =~= test_tags(front).to_set()) by {
                assert forall|x: Seq<char>| test_tags(tests).contains(x) implies test_tags(
                    front,
                ).to_set().contains(x) by {
                    let w = choose|w: int| 0 <= w < test_tags(tests).len() && test_tags(tests)[w] == x;
                    if w < front.len() {
                        assert(test_tags(front)[w] == x);
                    } else {
                        assert(entry_tags(prev).to_set().contains(tag));
                    }
                }
                assert forall|x: Seq<char>| test_tags(front).contains(x) implies test_tags(
                    tests,
                ).to_set().contains(x) by {
                    let w = choose|w: int| 0 <= w < test_tags(front).len() && test_tags(front)[w] == x;
                    assert(test_tags(tests)[w] == x);
                }
            }
            assert forall|k: int| 0 <= k < next.len() && (#[trigger] next[k]).dtf is Some implies {
                let i = next[k].dtf->0;
                i < tests.len() && tag_of(tests[i as int]) == next[k].tag
            } by {
                if k != j && prev[k].dtf is Some {
                    assert(prev[k] == merged(front)[k]);
                }
            }
            assert forall|k: int| 0 <= k < next.len() && (#[trigger] next[k]).rl is Some implies {
                let i = next[k].rl->0;
                i < tests.len() && tag_of(tests[i as int]) == next[k].tag
            } by {
                if k != j && prev[k].rl is Some {
                    assert(prev[k] == merged(front)[k]);
                }
            }
            assert forall|k: int| 0 <= k < next.len() implies (#[trigger] next[k]).dtf is Some
                || next[k].rl is Some by {
                if k != j {
                    assert(prev[k] == merged(front)[k]);
                }
            }
        } else {
            lemma_first_index_absent(entry_tags(prev), tag);
            assert(entry_tags(next) =~= entry_tags(prev).push(tag));
            assert forall|a: int, b: int|
                0 <= a < entry_tags(next).len() && 0 <= b < entry_tags(next).len() && a != b
                    implies entry_tags(next)[a] != entry_tags(next)[b] by {
                if a < prev.len() && b < prev.len() {
                    assert(entry_tags(prev)[a] != entry_tags(prev)[b]);
                } else if a < prev.len() {
                    assert(entry_tags(prev).contains(entry_tags(prev)[a]));
                } else if b < prev.len() {
                    assert(entry_tags(prev).contains(entry_tags(prev)[b]));
                }
            }
            assert(entry_tags(next).to_set() =~= test_tags(tests).to_set()) by {
                assert forall|x: Seq<char>| entry_tags(next).contains(x) implies test_tags(
                    tests,
                ).contains(x) by {
                    let w = choose|w: int| 0 <= w < entry_tags(next).len() && entry_tags(next)[w] == x;
                    if w < prev.len() {
                        assert(entry_tags(prev)[w] == x);
                        assert(entry_tags(prev).to_set().contains(x));
                        assert(test_tags(front).to_set().contains(x));
                        let v = choose|v: int| 0 <= v < test_tags(front).len() && test_tags(front)[v] == x;
                        assert(test_tags(tests)[v] == x);
                    } else {
                        assert(test_tags(tests)[tests.len() - 1] == x);
                    }
                }
                assert forall|x: Seq<char>| test_tags(tests).contains(x) implies entry_tags(
                    next,
                ).contains(x) by {
                    let w = choose|w: int| 0 <= w < test_tags(tests).len() && test_tags(tests)[w] == x;
                    if w < front.len() {
                        assert(test_tags(front)[w] == x);
                        assert(test_tags(front).to_set().contains(x));
                        assert(entry_tags(prev).to_set().contains(x));
                        let v = choose|v: int| 0 <= v < entry_tags(prev).len() && entry_tags(prev)[v] == x;
                        assert(entry_tags(next)[v] == x);
                    } else {
                        assert(entry_tags(next)[prev.len() as int] == x);
                    }
                }
            }
            assert forall|k: int| 0 <= k < next.len() && (#[trigger] next[k]).dtf is Some implies {
                let i = next[k].dtf->0;
                i < tests.len() && tag_of(tests[i as int]) == next[k].tag
            } by {
                if k < prev.len() {
                    assert(prev[k] == merged(front)[k]);
                }
            }
            assert forall|k: int| 0 <= k < next.len() && (#[trigger] next[k]).rl is Some implies {
                let i = next[k].rl->0;
                i < tests.len() && tag_of(tests[i as int]) == next[k].tag
            } by {
                if k < prev.len() {
                    assert(prev[k] == merged(front)[k]);
                }
            }
            assert forall|k: int| 0 <= k < next.len() implies (#[trigger] next[k]).dtf is Some
                || next[k].rl is Some by {
                if k < prev.len() {
                    assert(prev[k] == merged(front)[k]);
                }
            }
        }
    }
}

/// The number of cable reports is the number of distinct tags among the
/// tests of the first report.
pub proof fn lemma_one_report_per_tag(
    b: raw_ipa_report::Bundle,
    sidecars: Seq<Option<String>>,
    rep: SweepReport,
    ws: Seq<Warning>,
)
    requires
        sweep_matches(b, sidecars, rep, ws),
    ensures
        rep.reports@.len() == test_tags(first_tests(b)).to_set().len(),
{
    lemma_merged_shape(first_tests(b));
    entry_tags(merged(first_tests(b))).unique_seq_to_set();
}

/// When no two tests share a tag, each test gives a cable report of its own.
pub proof fn lemma_distinct_tags_report_each(
    b: raw_ipa_report::Bundle,
    sidecars: Seq<Option<String>>,
    rep: SweepReport,
    ws: Seq<Warning>,
)
    requires
        sweep_matches(b, sidecars, rep, ws),
        test_tags(first_tests(b)).no_duplicates(),
    ensures
        rep.reports@.len() == first_tests(b).len(),
{
    lemma_one_report_per_tag(b, sidecars, rep, ws);
    test_tags(first_tests(b)).unique_seq_to_set();
}

/// Every cable report holds a distance-to-fault side or a return-loss side.
pub proof fn lemma_every_report_has_a_side(
    b: raw_ipa_report::Bundle,
    sidecars: Seq<Option<String>>,
    rep: SweepReport,
    ws: Seq<Warning>,
)
    requires
        sweep_matches(b, sidecars, rep, ws),
    ensures
        forall|k: int|
            0 <= k < rep.reports@.len() ==> (#[trigger] rep.reports@[k]).dtf_result is Some
                || rep.reports@[k].rl_result is Some,
{
    let tests = first_tests(b);
    lemma_merged_shape(tests);
    assert forall|k: int| 0 <= k < rep.reports@.len() implies (#[trigger] rep.reports@[k]).dtf_result is Some
        || rep.reports@[k].rl_result is Some by {
        assert(report_matches(rep.reports@[k], merged(tests)[k], tests, b.states.state@, sidecars));
        assert(merged(tests)[k].dtf is Some || merged(tests)[k].rl is Some);
    }
}

/// Where nothing before test `i` fails, the bundle fails as test `i` does,
/// if it does.
proof fn lemma_first_failing_test(
    b: raw_ipa_report::Bundle,
    sidecars: Seq<Option<String>>,
    i: int,
)
    requires
        b.reports.report@.len() >= 1,
        0 <= i < first_tests(b).len(),
        devices_error(b.devices.device@) is None,
        tests_error(first_tests(b).take(i), b.states.state@, sidecars) is None,
    ensures
        test_error(first_tests(b)[i], b.states.state@, sidecar_at(sidecars, i)) is Some
            ==> bundle_error(b, sidecars) == test_error(
            first_tests(b)[i],
            b.states.state@,
            sidecar_at(sidecars, i),
        ),
{
    let tests = first_tests(b);
    assert(tests.take(i + 1).drop_last() =~= tests.take(i));
    assert(tests.take(i + 1).last() == tests[i]);
    if test_error(tests[i], b.states.state@, sidecar_at(sidecars, i)) is Some {
        lemma_tests_error_prefix(tests, b.states.state@, sidecars, i + 1);
    }
}

/// A test without a tag fails the bundle with `NoTagsOnTest`, and one with
/// several tags with `MultipleTagsOnTest`, where nothing before it fails.
pub proof fn lemma_tag_count_errors(b: raw_ipa_report::Bundle, sidecars: Seq<Option<String>>, i: int)
    requires
        b.reports.report@.len() >= 1,
        0 <= i < first_tests(b).len(),
        devices_error(b.devices.device@) is None,
        tests_error(first_tests(b).take(i), b.states.state@, sidecars) is None,
    ensures
        first_tests(b)[i].tags@.len() == 0 ==> bundle_error(b, sidecars) == Some(
            ReportError::NoTagsOnTest,
        ),
        first_tests(b)[i].tags@.len() > 1 ==> bundle_error(b, sidecars) == Some(
            ReportError::MultipleTagsOnTest,
        ),
{
    lemma_first_failing_test(b, sidecars, i);
}

/// A tagged test whose unit is neither `VSWR` nor `dB` fails the bundle with
/// `UnknownTestUnit`, where nothing before it fails.
pub proof fn lemma_unknown_unit_error(b: raw_ipa_report::Bundle, sidecars: Seq<Option<String>>, i: int)
    requires
        b.reports.report@.len() >= 1,
        0 <= i < first_tests(b).len(),
        devices_error(b.devices.device@) is None,
        tests_error(first_tests(b).take(i), b.states.state@, sidecars) is None,
        first_tests(b)[i].tags@.len() == 1,
        first_tests(b)[i].results.test_result.unit@ != seq!['V', 'S', 'W', 'R'],
        first_tests(b)[i].results.test_result.unit@ != seq!['d', 'B'],
    ensures
        bundle_error(b, sidecars) == Some(
            ReportError::UnknownTestUnit(first_tests(b)[i].results.test_result.unit),
        ),
{
    lemma_first_failing_test(b, sidecars, i);
}

/// A device without details sub-records fails the bundle with
/// `MissingDeviceDetails`, where the devices before it pass.
pub proof fn lemma_missing_details_error(b: raw_ipa_report::Bundle, sidecars: Seq<Option<String>>, i: int)
    requires
        0 <= i < b.devices.device@.len(),
        devices_error(b.devices.device@.take(i)) is None,
        b.devices.device@[i].details.device_details@.len() == 0,
    ensures
        bundle_error(b, sidecars) == Some(ReportError::MissingDeviceDetails),
{
    let devs = b.devices.device@;
    assert(devs.take(i + 1).drop_last() =~= devs.take(i));
    assert(devs.take(i + 1).last() == devs[i]);
    lemma_devices_error_prefix(devs, i + 1);
}

/// A single device with two details sub-records is described by the first
/// of them and gives exactly one warning, expecting `1` and observing `2`.
pub proof fn lemma_two_details_warn_once(
    b: raw_ipa_report::Bundle,
    sidecars: Seq<Option<String>>,
    rep: SweepReport,
    ws: Seq<Warning>,
)
    requires
        b.devices.device@.len() == 1,
        b.devices.device@[0].details.device_details@.len() == 2,
        sweep_matches(b, sidecars, rep, ws),
    ensures
        ws.len() == 1,
        ws[0].expected@ == seq!['1'],
        ws[0].result@ == seq!['2'],
        rep.devices@.len() == 1,
        device_matches(b.devices.device@[0], rep.devices@[0]),
        rep.devices@[0].id@ == b.devices.device@[0].details.device_details@[0].id@,
{
    let devs = b.devices.device@;
    assert(devs.drop_last() =~= Seq::<raw_ipa_report::Device>::empty());
    assert(warnings_match(devs.drop_last(), ws.drop_last()));
    assert(ws.drop_last().len() == 0);
    assert(ws.last() == ws[0]);
    assert(device_matches(devs[0], rep.devices@[0]));
    assert(decimal_digits(2) == seq![digit_char(2)]);
}

/// Two tests that share a tag, one distance-to-fault and one return-loss,
/// give a single cable report with both sides, whichever comes first.
pub proof fn lemma_dtf_and_rl_share_a_report(
    b: raw_ipa_report::Bundle,
    sidecars: Seq<Option<String>>,
    rep: SweepReport,
    ws: Seq<Warning>,
)
    requires
        first_tests(b).len() == 2,
        tag_of(first_tests(b)[0]) == tag_of(first_tests(b)[1]),
        test_type_of(first_tests(b)[0].results.test_result.unit@) is Some,
        test_type_of(first_tests(b)[1].results.test_result.unit@) is Some,
        test_type_of(first_tests(b)[0].results.test_result.unit@) != test_type_of(
            first_tests(b)[1].results.test_result.unit@,
        ),
        sweep_matches(b, sidecars, rep, ws),
    ensures
        rep.reports@.len() == 1,
        rep.reports@[0].tag@ == tag_of(first_tests(b)[0]),
        rep.reports@[0].dtf_result is Some,
        rep.reports@[0].rl_result is Some,
{
    let tests = first_tests(b);
    let one = tests.drop_last();
    assert(one.drop_last() =~= Seq::<raw_ipa_report::Test>::empty());
    let m1 = merged(one);
    assert(merged(one.drop_last()) == Seq::<CableEntry>::empty());
    assert(one.last() == tests[0]);
    assert(m1 == merge_step(Seq::<CableEntry>::empty(), tests[0], 0));
    assert(first_index(entry_tags(Seq::<CableEntry>::empty()), tag_of(tests[0])) == -1);
    assert(m1.len() == 1);
    assert(entry_tags(m1) =~= seq![tag_of(tests[0])]);
    assert(entry_tags(m1).drop_last() =~= Seq::<Seq<char>>::empty());
    assert(first_index(entry_tags(m1).drop_last(), tag_of(tests[1])) == -1);
    assert(tests.last() == tests[1]);
    assert(first_index(entry_tags(m1), tag_of(tests[1])) == 0);
    let m2 = merged(tests);
    assert(m2 == merge_step(m1, tests[1], 1));
    assert(report_matches(rep.reports@[0], m2[0], tests, b.states.state@, sidecars));
}

pub open spec fn same_text_opt(a: Option<String>, b: Option<String>) -> bool {
    match (a, b) {
        (Some(x), Some(y)) => x@ == y@,
        (None, None) => true,
        _ => false,
    }
}

pub open spec fn same_decimal(a: Decimal, b: Decimal) -> bool {
    a.text@ == b.text@
}

pub open spec fn same_limit(a: Limit, b: Limit) -> bool {
    &&& a.limit_type@ == b.limit_type@
    &&& a.measurement_type@ == b.measurement_type@
    &&& a.unit@ == b.unit@
    &&& a.name@ == b.name@
    &&& a.reference_value@ == b.reference_value@
}

pub open spec fn same_result(a: TestResult, b: TestResult) -> bool {
    &&& a.measurement_type@ == b.measurement_type@
    &&& a.unit@ == b.unit@
    &&& a.p1 == b.p1 && a.p2 == b.p2
    &&& same_decimal(a.max.0, b.max.0) && same_decimal(a.max.1, b.max.1)
    &&& same_decimal(a.min.0, b.min.0) && same_decimal(a.min.1, b.min.1)
    &&& same_decimal(a.avg, b.avg) && same_decimal(a.ripple, b.ripple)
    &&& a.pass == b.pass
    &&& a.calibrated == b.calibrated
    &&& a.time == b.time
}

pub open spec fn same_dtf_state(a: DtfState, b: DtfState) -> bool {
    &&& a.id@ == b.id@
    &&& a.test_type@ == b.test_type@
    &&& a.rx_khz == b.rx_khz
    &&& a.points == b.points
    &&& a.limit_distance == b.limit_distance
    &&& same_decimal(a.cable_loss_dbm, b.cable_loss_dbm)
    &&& same_limit(a.limit, b.limit)
}

pub open spec fn same_rl_state(a: RlState, b: RlState) -> bool {
    &&& a.id@ == b.id@
    &&& a.test_type@ == b.test_type@
    &&& a.points == b.points
    &&& same_limit(a.limit, b.limit)
}

/// Two cable reports hold the same values.
pub open spec fn same_report(a: Report, b: Report) -> bool {
    &&& a.tag@ == b.tag@
    &&& same_text_opt(a.dtf_state_id, b.dtf_state_id)
    &&& same_text_opt(a.rl_state_id, b.rl_state_id)
    &&& match (a.dtf_state, b.dtf_state) {
        (Some(x), Some(y)) => same_dtf_state(x, y),
        (None, None) => true,
        _ => false,
    }
    &&& match (a.rl_state, b.rl_state) {
        (Some(x), Some(y)) => same_rl_state(x, y),
        (None, None) => true,
        _ => false,
    }
    &&& match (a.dtf_marker, b.dtf_marker) {
        (Some(x), Some(y)) => same_decimal(x, y),
        (None, None) => true,
        _ => false,
    }
    &&& match (a.dtf_result, b.dtf_result) {
        (Some(x), Some(y)) => same_result(x, y),
        (None, None) => true,
        _ => false,
    }
    &&& match (a.rl_result, b.rl_result) {
        (Some(x), Some(y)) => same_result(x, y),
        (None, None) => true,
        _ => false,
    }
}

pub open spec fn same_device(a: Device, b: Device) -> bool {
    &&& a.serial_number@ == b.serial_number@
    &&& a.model@ == b.model@
    &&& a.id@ == b.id@
    &&& a.sw_version@ == b.sw_version@
    &&& a.calibration_date == b.calibration_date
    &&& a.signature@ == b.signature@
}

pub open spec fn same_warning(a: Warning, b: Warning) -> bool {
    a.message@ == b.message@ && a.expected@ == b.expected@ && a.result@ == b.result@
}

/// Two reconciled reports and their warnings hold the same values, in the
/// same order.
pub open spec fn same_outcome(a: SweepReport, wa: Seq<Warning>, b: SweepReport, wb: Seq<Warning>) -> bool {
    &&& a.devices@.len() == b.devices@.len()
    &&& forall|k: int| 0 <= k < a.devices@.len() ==> same_device(#[trigger] a.devices@[k], b.devices@[k])
    &&& a.reports@.len() == b.reports@.len()
    &&& forall|k: int| 0 <= k < a.reports@.len() ==> same_report(#[trigger] a.reports@[k], b.reports@[k])
    &&& wa.len() == wb.len()
    &&& forall|k: int| 0 <= k < wa.len() ==> same_warning(#[trigger] wa[k], wb[k])
}

proof fn lemma_warnings_unique(devs: Seq<raw_ipa_report::Device>, wa: Seq<Warning>, wb: Seq<Warning>)
    requires
        warnings_match(devs, wa),
        warnings_match(devs, wb),
    ensures
        wa.len() == wb.len(),
        forall|k: int| 0 <= k < wa.len() ==> same_warning(#[trigger] wa[k], wb[k]),
    decreases devs.len(),
{
    if devs.len() > 0 {
        let count = devs.last().details.device_details@.len();
        if count > 1 {
            lemma_warnings_unique(devs.drop_last(), wa.drop_last(), wb.drop_last());
            assert forall|k: int| 0 <= k < wa.len() implies same_warning(#[trigger] wa[k], wb[k]) by {
                if k < wa.len() - 1 {
                    assert(wa[k] == wa.drop_last()[k]);
                    assert(wb[k] == wb.drop_last()[k]);
                }
            }
        } else {
            lemma_warnings_unique(devs.drop_last(), wa, wb);
        }
    }
}

/// Reconciling the same bundle with the same sidecar texts twice gives the
/// same devices, cable reports and warnings: the outcome depends on the
/// input alone.
pub proof fn lemma_reconciliation_repeats(
    b: raw_ipa_report::Bundle,
    sidecars: Seq<Option<String>>,
    rep1: SweepReport,
    ws1: Seq<Warning>,
    rep2: SweepReport,
    ws2: Seq<Warning>,
)
    requires
        sweep_matches(b, sidecars, rep1, ws1),
        sweep_matches(b, sidecars, rep2, ws2),
    ensures
        same_outcome(rep1, ws1, rep2, ws2),
{
    let tests = first_tests(b);
    let states = b.states.state@;
    lemma_warnings_unique(b.devices.device@, ws1, ws2);
    assert forall|k: int| 0 <= k < rep1.devices@.len() implies same_device(
        #[trigger] rep1.devices@[k],
        rep2.devices@[k],
    ) by {
        assert(device_matches(b.devices.device@[k], rep1.devices@[k]));
        assert(device_matches(b.devices.device@[k], rep2.devices@[k]));
    }
    assert forall|k: int| 0 <= k < rep1.reports@.len() implies same_report(
        #[trigger] rep1.reports@[k],
        rep2.reports@[k],
    ) by {
        let e = merged(tests)[k];
        assert(report_matches(rep1.reports@[k], e, tests, states, sidecars));
        assert(report_matches(rep2.reports@[k], e, tests, states, sidecars));
    }
}

} // verus!