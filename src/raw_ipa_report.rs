//! The report bundle as the test equipment writes it: every value is text,
//! and the structure mirrors the nesting of the file.

use vstd::prelude::*;

verus! {

/// The whole decoded report file.
#[derive(Debug, Clone)]
pub struct Bundle {
    pub version: String,
    pub devices: Devices,
    pub states: States,
    pub reports: Reports,
}

#[derive(Debug, Clone)]
pub struct Devices {
    pub device: Vec<Device>,
}

/// One tested unit, with its details sub-records.
#[derive(Debug, Clone)]
pub struct Device {
    pub serial_number: String,
    pub model: String,
    pub details: Details,
}

#[derive(Debug, Clone)]
pub struct Details {
    pub device_details: Vec<DeviceDetails>,
}

#[derive(Debug, Clone)]
pub struct DeviceDetails {
    pub id: String,
    pub sw_versions: String,
    pub cal_date: String,
    pub signature: String,
}

#[derive(Debug, Clone)]
pub struct States {
    pub state: Vec<State>,
}

/// A calibration state definition; the frequency band, distance and cable
/// loss are present for distance-to-fault states only.
#[derive(Debug, Clone)]
pub struct State {
    pub id: String,
    pub test_type: String,
    pub rx_khz: Option<String>,
    pub points: String,
    pub distance_m: Option<String>,
    pub vf: Option<String>,
    pub window: Option<String>,
    pub cable_loss_db_per_m: Option<String>,
    pub limits: Limits,
}

#[derive(Debug, Clone)]
pub struct Limits {
    pub limit: Vec<Limit>,
}

#[derive(Debug, Clone)]
pub struct Limit {
    pub limit_type: String,
    pub measurement_type: String,
    pub unit: String,
    pub name: String,
    pub range: Option<String>,
    pub reference: String,
}

#[derive(Debug, Clone)]
pub struct Reports {
    pub report: Vec<Report>,
}

#[derive(Debug, Clone)]
pub struct Report {
    pub id: String,
    pub peak_pim_dbm: String,
    pub peak_pim_power_set_point_dbm: String,
    pub test_passed: String,
    pub items: Items,
}

#[derive(Debug, Clone)]
pub struct Items {
    pub test: Vec<Test>,
}

/// One measurement record.
#[derive(Debug, Clone)]
pub struct Test {
    pub id: String,
    pub state_id: String,
    pub time: String,
    pub calibrated: String,
    pub assets: Assets,
    pub tags: Vec<Tag>,
    pub results: Results,
}

#[derive(Debug, Clone)]
pub struct Assets {
    pub asset: Vec<String>,
}

#[derive(Debug, Clone)]
pub struct Tag {
    pub tag: String,
}

#[derive(Debug, Clone)]
pub struct TestDevices {
    pub devices: Vec<TestDeviceDetails>,
}

#[derive(Debug, Clone)]
pub struct TestDeviceDetails {
    pub id: String,
}

#[derive(Debug, Clone)]
pub struct Results {
    pub test_result: TestResult,
}

#[derive(Debug, Clone)]
pub struct TestResult {
    pub measurement_type: String,
    pub unit: String,
    pub p1: String,
    pub p2: String,
    pub maximum: String,
    pub minimum: String,
    pub average: String,
    pub ripple: String,
    pub pass: String,
}

} // verus!
