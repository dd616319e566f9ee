//! Hardware telemetry: which sensor counts, and what a snapshot holds.
//!
//! Temperatures come from kernel hwmon devices, matched by driver name rather
//! than by the arbitrary `hwmonN` index; VRAM usage and GPU utilization come
//! from the amdgpu counters and from `nvidia-smi`. The files themselves are
//! read elsewhere; this module is given their names and contents.

use vstd::multiset::Multiset;
use vstd::prelude::*;

use crate::single::Reading;
use crate::text::{
    chars_of, ends_with, parse_u64, parse_unsigned, parse_unsigned_at, starts_with, starts_with_at,
    trim, trim_bounds,
};

verus! {

/// Snapshot of the key hardware metrics.
#[derive(Debug, Clone, Copy)]
pub struct SystemStats {
    /// CPU core temperature in thousandths of a °C; `None` when unreadable.
    pub cpu_temp: Option<u64>,
    /// GPU core temperature in thousandths of a °C; `None` when unreadable.
    pub gpu_temp: Option<u64>,
    /// Average CPU core frequency in MHz; `0` when unreadable.
    pub cpu_freq_mhz: u64,
    /// AMD GPU VRAM in use, in bytes; zero when the counter is missing.
    pub gpu_vram_used: Reading,
    /// GPU busy percentage: the maximum of the AMD and NVIDIA readings; zero
    /// when neither source is available.
    pub gpu_busy_percent: Reading,
    /// RAM currently in use, in bytes.
    pub ram_used: u64,
    /// Total physical RAM, in bytes.
    pub ram_total: u64,
}

/// One file of a hwmon device.
#[derive(Debug)]
pub struct SensorFile {
    pub name: String,
    /// The file's contents; `None` when unreadable.
    pub text: Option<String>,
}

/// One hwmon device.
#[derive(Debug)]
pub struct HwmonDevice {
    /// Contents of the device's `name` file; `None` when unreadable.
    pub driver: Option<String>,
    /// The device's files, in directory order.
    pub files: Vec<SensorFile>,
}

/// Raw readings, as they come from the system.
#[derive(Debug)]
pub struct Samples {
    /// The hwmon devices, in sorted order.
    pub hwmon: Vec<HwmonDevice>,
    /// The VRAM counters of the cards, in order.
    pub vram_used: Vec<Option<Reading>>,
    /// The utilization counters of the cards, in order.
    pub amd_busy: Vec<Option<Reading>>,
    /// What `nvidia-smi` reports.
    pub nvidia_busy: Option<Reading>,
    /// The frequency of each core in MHz.
    pub core_mhz: Vec<u64>,
    pub ram_used: u64,
    pub ram_total: u64,
}

// ── Device order ────────────────────────────────────────────────────────

/// Lexicographic order of byte strings.
pub open spec fn lex_le(a: Seq<u8>, b: Seq<u8>) -> bool
    decreases a.len(),
{
    if a.len() == 0 {
        true
    } else if b.len() == 0 {
        false
    } else if a[0] != b[0] {
        a[0] < b[0]
    } else {
        lex_le(a.drop_first(), b.drop_first())
    }
}

/// A list of names in lexicographic order.
pub open spec fn names_sorted(names: Seq<Vec<u8>>) -> bool {
    forall|i: int, j: int|
        0 <= i <= j < names.len() ==> lex_le((#[trigger] names[i])@, (#[trigger] names[j])@)
}

proof fn lemma_lex_total(a: Seq<u8>, b: Seq<u8>)
    ensures
        lex_le(a, b) || lex_le(b, a),
        lex_le(a, a),
    decreases a.len(),
{
    if a.len() > 0 {
        lemma_lex_total(a.drop_first(), b.drop_first());
    }
}

proof fn lemma_lex_transitive(a: Seq<u8>, b: Seq<u8>, c: Seq<u8>)
    requires
        lex_le(a, b),
        lex_le(b, c),
    ensures
        lex_le(a, c),
    decreases a.len(),
{
    if a.len() > 0 && b.len() > 0 && c.len() > 0 && a[0] == b[0] && b[0] == c[0] {
        lemma_lex_transitive(a.drop_first(), b.drop_first(), c.drop_first());
    }
}

/// Whether `a` comes no later than `b` in lexicographic order.
fn not_after(a: &Vec<u8>, b: &Vec<u8>) -> (r: bool)
    ensures
        r == lex_le(a@, b@),
{
    let mut i: usize = 0;
    assert(a@.skip(0) =~= a@);
    assert(b@.skip(0) =~= b@);
    while i < a.len()
        invariant
            i <= a.len(),
            i <= b.len(),
            lex_le(a@.skip(i as int), b@.skip(i as int)) == lex_le(a@, b@),
        decreases a.len() - i,
    {
        if i >= b.len() {
            return false;
        }
        if a[i] != b[i] {
            return a[i] < b[i];
        }
        assert(a@.skip(i as int).drop_first() =~= a@.skip(i + 1));
        assert(b@.skip(i as int).drop_first() =~= b@.skip(i + 1));
        i += 1;
    }
    true
}

/// The hwmon device names in a stable (sorted) order.
pub fn hwmon_dirs(names: Vec<Vec<u8>>) -> (r: Vec<Vec<u8>>)
    ensures
        names_sorted(r@),
        r@.to_multiset() == names@.to_multiset(),
{
    broadcast use vstd::seq_lib::group_to_multiset_ensures;

    let mut rest = names;
    let mut out: Vec<Vec<u8>> = Vec::new();
    let ghost all = names@.to_multiset();
    assert(out@.to_multiset().add(rest@.to_multiset()) =~= all);
    while rest.len() > 0
        invariant
            names_sorted(out@),
            out@.to_multiset().add(rest@.to_multiset()) == all,
        decreases rest.len(),
    {
        let ghost rest0 = rest@;
        let ghost out0 = out@;
        match rest.pop() {
            Some(name) => {
                proof {
                    assert(rest0 =~= rest@.push(name));
                    vstd::seq_lib::to_multiset_build(rest@, name);
                }
                let mut p: usize = 0;
                while p < out.len() && not_after(&out[p], &name)
                    invariant
                        p <= out.len(),
                        out@ == out0,
                        forall|i: int| 0 <= i < p ==> lex_le((#[trigger] out@[i])@, name@),
                    decreases out.len() - p,
                {
                    p += 1;
                }
                proof {
                    assert forall|i: int| p <= i < out0.len() implies lex_le(
                        name@,
                        (#[trigger] out0[i])@,
                    ) by {
                        lemma_lex_total(out0[p as int]@, name@);
                        lemma_lex_total(name@, out0[p as int]@);
                        assert(lex_le(out0[p as int]@, out0[i]@));
                        lemma_lex_transitive(name@, out0[p as int]@, out0[i]@);
                    }
                }
                out.insert(p, name);
                proof {
                    assert(out@ =~= out0.insert(p as int, name));
                    vstd::seq_lib::to_multiset_insert(out0, p as int, name);
                    lemma_lex_total(name@, name@);
                    assert forall|i: int, j: int| 0 <= i <= j < out@.len() implies lex_le(
                        (#[trigger] out@[i])@,
                        (#[trigger] out@[j])@,
                    ) by {
                        let oi = if i < p {
                            i
                        } else {
                            i - 1
                        };
                        let oj = if j < p {
                            j
                        } else {
                            j - 1
                        };
                        if i != p && j != p {
                            assert(out@[i] == out0[oi] && out@[j] == out0[oj]);
                        } else if i == p && j != p {
                            assert(out@[j] == out0[oj]);
                        } else if i != p && j == p {
                            assert(out@[i] == out0[oi]);
                        }
                    }
                    assert(out@.to_multiset().add(rest@.to_multiset()) =~= all);
                }
            },
            None => {},
        }
    }
    assert(rest@ =~= Seq::empty());
    assert(rest@.to_multiset() =~= Multiset::empty());
    assert(out@.to_multiset() =~= all);
    out
}

// ── Temperatures ────────────────────────────────────────────────────────

/// The `N` of a file named `tempN_input`.
pub open spec fn sensor_index(name: Seq<char>) -> Option<int> {
    let rest = name.skip(4);
    if starts_with(name, "temp"@) && ends_with(rest, "_input"@) {
        parse_unsigned(rest.take(rest.len() - 6), u32::MAX as int)
    } else {
        None
    }
}

/// A reading in thousandths of a °C that is at least 1 °C and below 125 °C.
pub open spec fn is_plausible(milli: int) -> bool {
    1000 <= milli < 125000
}

/// The plausible temperature that a file's contents spell, if any.
pub open spec fn file_temp(text: Option<String>) -> Option<int> {
    match text {
        Some(t) => match parse_unsigned(trim(t@), u64::MAX as int) {
            Some(milli) => if is_plausible(milli) {
                Some(milli)
            } else {
                None
            },
            None => None,
        },
        None => None,
    }
}

/// A sensor file with a plausible reading.
pub open spec fn is_usable(file: SensorFile) -> bool {
    sensor_index(file.name@) is Some && file_temp(file.text) is Some
}

/// Whether sensor `a` is read before sensor `b`: `temp1` comes first, then the
/// remaining sensors by index.
pub open spec fn read_before(a: int, b: int) -> bool {
    a != b && (a == 1 || (b != 1 && a < b))
}

/// The sensor index and temperature of the usable file whose sensor is read
/// first, the earliest file where several share a sensor index.
pub open spec fn best_sensor(files: Seq<SensorFile>) -> Option<(int, int)>
    decreases files.len(),
{
    if files.len() == 0 {
        None
    } else {
        let front = best_sensor(files.drop_last());
        let file = files.last();
        if is_usable(file) {
            let index = sensor_index(file.name@)->Some_0;
            match front {
                Some((first, _)) => if read_before(index, first) {
                    Some((index, file_temp(file.text)->Some_0))
                } else {
                    front
                },
                None => Some((index, file_temp(file.text)->Some_0)),
            }
        } else {
            front
        }
    }
}

/// The temperature of a device.
pub open spec fn device_temp(files: Seq<SensorFile>) -> Option<int> {
    match best_sensor(files) {
        Some((_, milli)) => Some(milli),
        None => None,
    }
}

/// `best_sensor` is a usable file, and no usable file is read before it; a
/// usable `temp1_input` is always the one.
pub proof fn lemma_best_sensor_is_first(files: Seq<SensorFile>)
    ensures
        best_sensor(files) is None <==> (forall|i: int|
            0 <= i < files.len() ==> !is_usable(#[trigger] files[i])),
        best_sensor(files) matches Some((index, milli)) ==> is_plausible(milli) && (exists|i: int|
            0 <= i < files.len() && #[trigger] is_usable(files[i]) && sensor_index(files[i].name@)
                == Some(index) && file_temp(files[i].text) == Some(milli)) && (forall|j: int|
            0 <= j < files.len() && #[trigger] is_usable(files[j]) ==> !read_before(
                sensor_index(files[j].name@)->Some_0,
                index,
            ) && (sensor_index(files[j].name@) == Some(1int) ==> index == 1)),
    decreases files.len(),
{
    if files.len() > 0 {
        let front = files.drop_last();
        let n = files.len() - 1;
        lemma_best_sensor_is_first(front);
        assert forall|j: int| 0 <= j < n implies files[j] == front[j] by {}
        assert(files[n] == files.last());
        if best_sensor(files) is None {
            assert forall|i: int| 0 <= i < files.len() implies !is_usable(#[trigger] files[i]) by {
                if i < n {
                    assert(!is_usable(front[i]));
                }
            }
        } else {
            let (index, milli) = best_sensor(files)->Some_0;
            if best_sensor(files) == best_sensor(front) {
                let i = choose|i: int|
                    0 <= i < front.len() && #[trigger] is_usable(front[i]) && sensor_index(
                        front[i].name@,
                    ) == Some(index) && file_temp(front[i].text) == Some(milli);
                assert(is_usable(files[i]));
            } else {
                assert(is_usable(files[n]));
            }
            assert forall|j: int| 0 <= j < files.len() && #[trigger] is_usable(files[j]) implies !read_before(
                sensor_index(files[j].name@)->Some_0,
                index,
            ) && (sensor_index(files[j].name@) == Some(1int) ==> index == 1) by {
                if j < n {
                    assert(is_usable(front[j]));
                }
            }
        }
    }
}

/// The `N` of a file named `tempN_input`.
pub fn temp_sensor_index(name: &str) -> (r: Option<u32>)
    ensures
        r is Some == sensor_index(name@) is Some,
        r matches Some(v) ==> sensor_index(name@) == Some(v as int),
{
    let s = chars_of(name);
    let n = s.len();
    proof {
        reveal_strlit("temp");
        reveal_strlit("_input");
        assert(s@.subrange(0, n as int) =~= name@);
    }
    if !starts_with_at(&s, 0, n, "temp") || n < 10 {
        return None;
    }
    let ghost rest = name@.skip(4);
    assert(rest.skip(rest.len() - 6) =~= s@.subrange(n - 6, n as int));
    if !starts_with_at(&s, n - 6, n, "_input") {
        assert(s@.subrange(n - 6, n as int).take(6) =~= s@.subrange(n - 6, n as int));
        return None;
    }
    assert(s@.subrange(n - 6, n as int).take(6) =~= s@.subrange(n - 6, n as int));
    assert(rest.take(rest.len() - 6) =~= s@.subrange(4, n - 6));
    match parse_unsigned_at(&s, 4, n - 6, u32::MAX as u64) {
        Some(v) => Some(v as u32),
        None => None,
    }
}

/// The plausible temperature that a file's contents spell, if any.
fn plausible_temp(text: &Option<String>) -> (r: Option<u64>)
    ensures
        r is Some == file_temp(*text) is Some,
        r matches Some(v) ==> file_temp(*text) == Some(v as int),
{
    match text {
        Some(t) => match parse_u64(t.as_str()) {
            Some(milli) => if 1000 <= milli && milli < 125000 {
                Some(milli)
            } else {
                None
            },
            None => None,
        },
        None => None,
    }
}

/// Read the first plausible temperature of a hwmon device, in thousandths of
/// a °C.
///
/// Prefers `temp1_input`, then falls back to any other `tempN_input` file.
/// Zeroed (uninitialized) or physically implausible readings are skipped.
pub fn read_hwmon_temp_celsius(files: &Vec<SensorFile>) -> (r: Option<u64>)
    ensures
        r is Some == device_temp(files@) is Some,
        r matches Some(v) ==> device_temp(files@) == Some(v as int),
{
    let mut best: Option<(u32, u64)> = None;
    let mut k: usize = 0;
    assert(files@.take(0) =~= Seq::empty());
    while k < files.len()
        invariant
            k <= files.len(),
            best is Some == best_sensor(files@.take(k as int)) is Some,
            best matches Some((i, v)) ==> best_sensor(files@.take(k as int)) == Some(
                (i as int, v as int),
            ),
        decreases files.len() - k,
    {
        proof {
            let t = files@.take(k + 1);
            assert(t.drop_last() =~= files@.take(k as int));
            assert(t.last() == files@[k as int]);
        }
        if let Some(index) = temp_sensor_index(files[k].name.as_str()) {
            if let Some(milli) = plausible_temp(&files[k].text) {
                match best {
                    Some((first, _)) => {
                        if index != first && (index == 1 || (first != 1 && index < first)) {
                            best = Some((index, milli));
                        }
                    },
                    None => {
                        best = Some((index, milli));
                    },
                }
            }
        }
        k += 1;
    }
    assert(files@.take(files.len() as int) =~= files@);
    match best {
        Some((_, milli)) => Some(milli),
        None => None,
    }
}

/// Whether a device's `name` file holds the driver name `driver`.
pub open spec fn has_driver(device: HwmonDevice, driver: Seq<char>) -> bool {
    match device.driver {
        Some(text) => trim(text@) == driver,
        None => false,
    }
}

/// The temperature of the first device, at or after `k`, that has the driver
/// and reports a plausible temperature.
pub open spec fn driver_temp(devices: Seq<HwmonDevice>, driver: Seq<char>, k: int) -> Option<int>
    decreases devices.len() - k,
{
    if k >= devices.len() {
        None
    } else if has_driver(devices[k], driver) && device_temp(devices[k].files@) is Some {
        device_temp(devices[k].files@)
    } else {
        driver_temp(devices, driver, k + 1)
    }
}

/// The temperature under the first of the drivers, at or after `d`, that
/// yields one.
pub open spec fn priority_temp(
    devices: Seq<HwmonDevice>,
    drivers: Seq<Seq<char>>,
    d: int,
) -> Option<int>
    decreases drivers.len() - d,
{
    if d >= drivers.len() {
        None
    } else if driver_temp(devices, drivers[d], 0) is Some {
        driver_temp(devices, drivers[d], 0)
    } else {
        priority_temp(devices, drivers, d + 1)
    }
}

/// Driver names, in priority order, considered to be the CPU sensor.
pub open spec fn cpu_drivers() -> Seq<Seq<char>> {
    seq!["k10temp"@, "cpu_thermal"@, "coretemp"@]
}

/// Driver names, in priority order, considered to be the AMD GPU sensor.
pub open spec fn gpu_drivers() -> Seq<Seq<char>> {
    seq!["amdgpu"@, "radeon"@]
}

fn device_has_driver(device: &HwmonDevice, driver: &str) -> (r: bool)
    ensures
        r == has_driver(*device, driver@),
{
    match &device.driver {
        Some(text) => {
            let s = chars_of(text.as_str());
            let n = s.len();
            assert(s@.subrange(0, n as int) =~= text@);
            let (a, b) = trim_bounds(&s, 0, n);
            let d = chars_of(driver);
            let ghost t = trim(text@);
            if b - a != d.len() {
                assert(t.len() != driver@.len());
                return false;
            }
            let same = starts_with_at(&s, a, b, driver);
            assert(t.take(t.len() as int) =~= t);
            same
        },
        None => false,
    }
}

fn read_driver_temp(devices: &Vec<HwmonDevice>, driver: &str) -> (r: Option<u64>)
    ensures
        r is Some == driver_temp(devices@, driver@, 0) is Some,
        r matches Some(v) ==> driver_temp(devices@, driver@, 0) == Some(v as int),
{
    let mut k: usize = 0;
    while k < devices.len()
        invariant
            k <= devices.len(),
            driver_temp(devices@, driver@, k as int) == driver_temp(devices@, driver@, 0),
        decreases devices.len() - k,
    {
        if device_has_driver(&devices[k], driver) {
            if let Some(milli) = read_hwmon_temp_celsius(&devices[k].files) {
                return Some(milli);
            }
        }
        k += 1;
    }
    None
}

/// The texts of a list of names.
pub open spec fn name_texts(names: Seq<&str>) -> Seq<Seq<char>> {
    Seq::new(names.len(), |i: int| names[i]@)
}

/// Find the first hwmon sensor, in driver priority order, that reports a
/// plausible temperature.
pub fn read_sensor_temperature(driver_names: &Vec<&str>, devices: &Vec<HwmonDevice>) -> (r: Option<
    u64,
>)
    ensures
        r is Some == priority_temp(devices@, name_texts(driver_names@), 0) is Some,
        r matches Some(v) ==> priority_temp(devices@, name_texts(driver_names@), 0) == Some(
            v as int,
        ),
{
    let ghost names = name_texts(driver_names@);
    let mut d: usize = 0;
    while d < driver_names.len()
        invariant
            d <= driver_names.len(),
            names == name_texts(driver_names@),
            priority_temp(devices@, names, d as int) == priority_temp(devices@, names, 0),
        decreases driver_names.len() - d,
    {
        if let Some(milli) = read_driver_temp(devices, driver_names[d]) {
            return Some(milli);
        }
        d += 1;
    }
    None
}

proof fn lemma_driver_temp_plausible(devices: Seq<HwmonDevice>, driver: Seq<char>, k: int)
    requires
        0 <= k,
    ensures
        driver_temp(devices, driver, k) matches Some(milli) ==> is_plausible(milli),
    decreases devices.len() - k,
{
    if k < devices.len() {
        lemma_best_sensor_is_first(devices[k].files@);
        lemma_driver_temp_plausible(devices, driver, k + 1);
    }
}

/// Whatever the files hold, a temperature that is reported is plausible.
pub proof fn lemma_reported_temperature_is_plausible(
    devices: Seq<HwmonDevice>,
    drivers: Seq<Seq<char>>,
    d: int,
)
    requires
        0 <= d,
    ensures
        priority_temp(devices, drivers, d) matches Some(milli) ==> is_plausible(milli),
    decreases drivers.len() - d,
{
    if d < drivers.len() {
        lemma_driver_temp_plausible(devices, drivers[d], 0);
        lemma_reported_temperature_is_plausible(devices, drivers, d + 1);
    }
}

/// A driver of higher priority with a temperature decides, whatever devices of
/// other drivers report.
pub proof fn lemma_first_driver_decides(devices: Seq<HwmonDevice>, drivers: Seq<Seq<char>>)
    requires
        drivers.len() > 0,
        driver_temp(devices, drivers[0], 0) is Some,
    ensures
        priority_temp(devices, drivers, 0) == driver_temp(devices, drivers[0], 0),
{
}

// ── GPU counters and snapshot ───────────────────────────────────────────

/// The first reading at or after `k`, or zero.
pub open spec fn first_reading(readings: Seq<Option<Reading>>, k: int) -> Reading
    decreases readings.len() - k,
{
    if k >= readings.len() {
        Reading { bits: 0 }
    } else {
        match readings[k] {
            Some(r) => r,
            None => first_reading(readings, k + 1),
        }
    }
}

/// The largest of zero and the readings.
pub open spec fn largest_reading(readings: Seq<Option<Reading>>) -> Reading
    decreases readings.len(),
{
    if readings.len() == 0 {
        Reading { bits: 0 }
    } else {
        let front = largest_reading(readings.drop_last());
        match readings.last() {
            Some(r) => front.max_of(r),
            None => front,
        }
    }
}

pub open spec fn sum(values: Seq<u64>) -> nat
    decreases values.len(),
{
    if values.len() == 0 {
        0
    } else {
        sum(values.drop_last()) + values.last() as nat
    }
}

/// The average of the values, rounded down; zero where there are none.
pub open spec fn average(values: Seq<u64>) -> nat {
    if values.len() == 0 {
        0
    } else {
        sum(values) / values.len()
    }
}

/// The VRAM in use, in bytes: the first card whose counter could be read.
pub fn read_amdgpu_vram_used(cards: &Vec<Option<Reading>>) -> (r: Reading)
    ensures
        r == first_reading(cards@, 0),
{
    let mut k: usize = 0;
    while k < cards.len()
        invariant
            k <= cards.len(),
            first_reading(cards@, k as int) == first_reading(cards@, 0),
        decreases cards.len() - k,
    {
        if let Some(r) = cards[k] {
            return r;
        }
        k += 1;
    }
    Reading::zero()
}

/// The GPU busy percentage of the busiest card; zero where none could be read.
pub fn read_amdgpu_busy_percent(cards: &Vec<Option<Reading>>) -> (r: Reading)
    ensures
        r == largest_reading(cards@),
{
    let mut max_busy = Reading::zero();
    let mut k: usize = 0;
    assert(cards@.take(0) =~= Seq::empty());
    while k < cards.len()
        invariant
            k <= cards.len(),
            max_busy == largest_reading(cards@.take(k as int)),
        decreases cards.len() - k,
    {
        proof {
            let t = cards@.take(k + 1);
            assert(t.drop_last() =~= cards@.take(k as int));
            assert(t.last() == cards@[k as int]);
        }
        if let Some(r) = cards[k] {
            max_busy = max_busy.max(r);
        }
        k += 1;
    }
    assert(cards@.take(cards.len() as int) =~= cards@);
    max_busy
}

/// Average frequency across all cores.
pub fn average_mhz(core_mhz: &Vec<u64>) -> (r: u64)
    ensures
        r == average(core_mhz@),
{
    let n = core_mhz.len();
    if n == 0 {
        return 0;
    }
    let mut total: u128 = 0;
    let mut k: usize = 0;
    assert(core_mhz@.take(0) =~= Seq::empty());
    while k < n
        invariant
            k <= n,
            n == core_mhz.len(),
            total == sum(core_mhz@.take(k as int)),
            total <= k * 0xffff_ffff_ffff_ffff,
        decreases n - k,
    {
        proof {
            let t = core_mhz@.take(k + 1);
            assert(t.drop_last() =~= core_mhz@.take(k as int));
            assert(t.last() == core_mhz@[k as int]);
            assert(k * 0xffff_ffff_ffff_ffff <= 0xffff_ffff_ffff_ffff * 0xffff_ffff_ffff_ffff);
        }
        total = total + core_mhz[k] as u128;
        k += 1;
    }
    assert(core_mhz@.take(n as int) =~= core_mhz@);
    let mean: u128 = total / (n as u128);
    assert(mean <= 0xffff_ffff_ffff_ffff) by (nonlinear_arith)
        requires
            total <= n * 0xffff_ffff_ffff_ffff,
            n > 0,
            mean == total / (n as u128),
    ;
    mean as u64
}

/// An optional number.
pub open spec fn is_number(r: Option<u64>, spec_r: Option<int>) -> bool {
    match (r, spec_r) {
        (Some(v), Some(n)) => v == n,
        (None, None) => true,
        _ => false,
    }
}

/// Assemble a full snapshot from raw readings: CPU/GPU temperatures, CPU
/// frequency, VRAM usage, GPU utilization and RAM usage.
pub fn get_stats(samples: &Samples) -> (r: SystemStats)
    ensures
        is_number(r.cpu_temp, priority_temp(samples.hwmon@, cpu_drivers(), 0)),
        is_number(r.gpu_temp, priority_temp(samples.hwmon@, gpu_drivers(), 0)),
        r.cpu_freq_mhz == average(samples.core_mhz@),
        r.gpu_vram_used == first_reading(samples.vram_used@, 0),
        r.gpu_busy_percent == largest_reading(samples.amd_busy@).max_of(
            match samples.nvidia_busy {
                Some(n) => n,
                None => Reading { bits: 0 },
            },
        ),
        r.ram_used == samples.ram_used,
        r.ram_total == samples.ram_total,
{
    let cpu: Vec<&str> = vec!["k10temp", "cpu_thermal", "coretemp"];
    let gpu: Vec<&str> = vec!["amdgpu", "radeon"];
    assert(name_texts(cpu@) =~= cpu_drivers());
    assert(name_texts(gpu@) =~= gpu_drivers());
    let amd = read_amdgpu_busy_percent(&samples.amd_busy);
    let nvidia = match samples.nvidia_busy {
        Some(n) => n,
        None => Reading::zero(),
    };
    SystemStats {
        cpu_temp: read_sensor_temperature(&cpu, &samples.hwmon),
        gpu_temp: read_sensor_temperature(&gpu, &samples.hwmon),
        cpu_freq_mhz: average_mhz(&samples.core_mhz),
        gpu_vram_used: read_amdgpu_vram_used(&samples.vram_used),
        gpu_busy_percent: amd.max(nvidia),
        ram_used: samples.ram_used,
        ram_total: samples.ram_total,
    }
}

/// The busiest card decides: the largest reading is a number, not below zero,
/// and not below any reading that is a number.
pub proof fn lemma_largest_reading_dominates(readings: Seq<Option<Reading>>)
    ensures
        !largest_reading(readings).is_nan(),
        largest_reading(readings).value() >= 0,
        forall|i: int|
            #![trigger readings[i]]
            0 <= i < readings.len() && readings[i] is Some && !(readings[i]->Some_0).is_nan()
                ==> largest_reading(readings).value() >= (readings[i]->Some_0).value(),
    decreases readings.len(),
{
    assert((Reading { bits: 0 }).value() == 0 && !(Reading { bits: 0 }).is_nan());
    if readings.len() > 0 {
        let front = readings.drop_last();
        lemma_largest_reading_dominates(front);
        assert forall|i: int|
            0 <= i < readings.len() && (#[trigger] readings[i]) is Some && !(readings[i]->Some_0).is_nan()
            implies largest_reading(readings).value() >= (readings[i]->Some_0).value() by {
            if i < front.len() {
                assert(readings[i] == front[i]);
            } else {
                assert(readings[i] == readings.last());
            }
        }
    }
}

proof fn lemma_driver_temp_skips(
    devices: Seq<HwmonDevice>,
    i: int,
    other: HwmonDevice,
    driver: Seq<char>,
    k: int,
)
    requires
        0 <= i <= devices.len(),
        0 <= k,
        !has_driver(other, driver),
    ensures
        driver_temp(devices.insert(i, other), driver, if k <= i {
            k
        } else {
            k + 1
        }) == driver_temp(devices, driver, k),
    decreases devices.len() + 1 - k,
{
    let more = devices.insert(i, other);
    if k == i {
        assert(driver_temp(more, driver, i) == driver_temp(more, driver, i + 1));
        if i < devices.len() {
            assert(more[i + 1] == devices[i]);
            lemma_driver_temp_skips(devices, i, other, driver, i + 1);
        }
    } else if k < devices.len() {
        assert(devices[k] == if k < i {
            more[k]
        } else {
            more[k + 1]
        });
        lemma_driver_temp_skips(devices, i, other, driver, k + 1);
    }
}

/// Sensors are found by driver, not by index: a device of another driver,
/// wherever it turns up and so shifts the numbers of the devices after it,
/// does not change the temperature.
pub proof fn lemma_index_shift_does_not_matter(
    devices: Seq<HwmonDevice>,
    i: int,
    other: HwmonDevice,
    drivers: Seq<Seq<char>>,
    d: int,
)
    requires
        0 <= i <= devices.len(),
        0 <= d,
        forall|j: int| 0 <= j < drivers.len() ==> !has_driver(other, #[trigger] drivers[j]),
    ensures
        priority_temp(devices.insert(i, other), drivers, d) == priority_temp(devices, drivers, d),
    decreases drivers.len() - d,
{
    if d < drivers.len() {
        lemma_driver_temp_skips(devices, i, other, drivers[d], 0);
        lemma_index_shift_does_not_matter(devices, i, other, drivers, d + 1);
    }
}

/// GPU load honours every source: the AMD maximum joined with the NVIDIA
/// reading is one of the two, is a number, and is below neither.
pub proof fn lemma_busy_is_max_of_sources(amd: Seq<Option<Reading>>, nvidia: Reading)
    ensures
        ({
            let r = largest_reading(amd).max_of(nvidia);
            &&& r == largest_reading(amd) || r == nvidia
            &&& !r.is_nan()
            &&& r.value() >= largest_reading(amd).value()
            &&& !nvidia.is_nan() ==> r.value() >= nvidia.value()
        }),
{
    lemma_largest_reading_dominates(amd);
}

// ── Laws of sensor discovery ────────────────────────────────────────────

/// The first device, in order, that has the driver and reports a temperature
/// decides, whatever the devices after it are.
pub proof fn lemma_first_device_decides(devices: Seq<HwmonDevice>, driver: Seq<char>, k: int)
    requires
        0 <= k < devices.len(),
        has_driver(devices[k], driver),
        device_temp(devices[k].files@) is Some,
        forall|j: int|
            0 <= j < k ==> !has_driver(#[trigger] devices[j], driver) || device_temp(
                devices[j].files@,
            ) is None,
    ensures
        driver_temp(devices, driver, 0) == device_temp(devices[k].files@),
{
    lemma_driver_temp_from(devices, driver, 0, k);
}

proof fn lemma_driver_temp_from(devices: Seq<HwmonDevice>, driver: Seq<char>, from: int, k: int)
    requires
        0 <= from <= k <= devices.len(),
        forall|j: int|
            from <= j < k ==> !has_driver(#[trigger] devices[j], driver) || device_temp(
                devices[j].files@,
            ) is None,
    ensures
        driver_temp(devices, driver, from) == driver_temp(devices, driver, k),
    decreases k - from,
{
    if from < k {
        assert(!has_driver(devices[from], driver) || device_temp(devices[from].files@) is None);
        lemma_driver_temp_from(devices, driver, from + 1, k);
    }
}

/// A driver has no temperature exactly if no device has both the driver and a
/// temperature.
pub proof fn lemma_no_temperature_without_a_device(devices: Seq<HwmonDevice>, driver: Seq<char>)
    ensures
        driver_temp(devices, driver, 0) is None <==> (forall|j: int|
            0 <= j < devices.len() ==> !has_driver(#[trigger] devices[j], driver) || device_temp(
                devices[j].files@,
            ) is None),
{
    lemma_driver_temp_none(devices, driver, 0);
}

proof fn lemma_driver_temp_none(devices: Seq<HwmonDevice>, driver: Seq<char>, from: int)
    requires
        0 <= from <= devices.len(),
    ensures
        driver_temp(devices, driver, from) is None <==> (forall|j: int|
            from <= j < devices.len() ==> !has_driver(#[trigger] devices[j], driver) || device_temp(
                devices[j].files@,
            ) is None),
    decreases devices.len() - from,
{
    if from < devices.len() {
        lemma_driver_temp_none(devices, driver, from + 1);
        assert(has_driver(devices[from], driver) == has_driver(devices[from], driver));
    }
}

/// Devices that come after a list which yields a temperature for a driver do
/// not change it.
pub proof fn lemma_later_devices_do_not_matter(
    devices: Seq<HwmonDevice>,
    more: Seq<HwmonDevice>,
    driver: Seq<char>,
)
    requires
        driver_temp(devices, driver, 0) is Some,
    ensures
        driver_temp(devices + more, driver, 0) == driver_temp(devices, driver, 0),
{
    lemma_driver_temp_prefix(devices, more, driver, 0);
}

proof fn lemma_driver_temp_prefix(
    devices: Seq<HwmonDevice>,
    more: Seq<HwmonDevice>,
    driver: Seq<char>,
    k: int,
)
    requires
        0 <= k,
        driver_temp(devices, driver, k) is Some,
    ensures
        driver_temp(devices + more, driver, k) == driver_temp(devices, driver, k),
    decreases devices.len() - k,
{
    if k < devices.len() {
        assert((devices + more)[k] == devices[k]);
        if !(has_driver(devices[k], driver) && device_temp(devices[k].files@) is Some) {
            lemma_driver_temp_prefix(devices, more, driver, k + 1);
        }
    }
}

/// The first driver of the priority list that yields a temperature decides;
/// there is none exactly if no driver of the list yields one.
pub proof fn lemma_drivers_by_priority(
    devices: Seq<HwmonDevice>,
    drivers: Seq<Seq<char>>,
    d: int,
)
    requires
        0 <= d <= drivers.len(),
        forall|j: int| 0 <= j < d ==> driver_temp(devices, #[trigger] drivers[j], 0) is None,
    ensures
        d < drivers.len() && driver_temp(devices, drivers[d], 0) is Some ==> priority_temp(
            devices,
            drivers,
            0,
        ) == driver_temp(devices, drivers[d], 0),
        d == drivers.len() ==> priority_temp(devices, drivers, 0) is None,
{
    lemma_priority_from(devices, drivers, 0, d);
}

proof fn lemma_priority_from(
    devices: Seq<HwmonDevice>,
    drivers: Seq<Seq<char>>,
    from: int,
    d: int,
)
    requires
        0 <= from <= d <= drivers.len(),
        forall|j: int| from <= j < d ==> driver_temp(devices, #[trigger] drivers[j], 0) is None,
    ensures
        priority_temp(devices, drivers, from) == priority_temp(devices, drivers, d),
    decreases d - from,
{
    if from < d {
        assert(driver_temp(devices, drivers[from], 0) is None);
        lemma_priority_from(devices, drivers, from + 1, d);
    }
}

/// Which drivers count, in priority order: `k10temp`, `cpu_thermal` and
/// `coretemp` for the CPU, `amdgpu` and `radeon` for the GPU.
pub proof fn lemma_driver_lists()
    ensures
        cpu_drivers().len() == 3,
        cpu_drivers()[0] == "k10temp"@,
        cpu_drivers()[1] == "cpu_thermal"@,
        cpu_drivers()[2] == "coretemp"@,
        gpu_drivers().len() == 2,
        gpu_drivers()[0] == "amdgpu"@,
        gpu_drivers()[1] == "radeon"@,
{
}

/// A device has a driver exactly if its `name` file could be read and holds the
/// driver's name, white space around it aside.
pub proof fn lemma_driver_is_the_name_file(device: HwmonDevice, driver: Seq<char>)
    ensures
        device.driver is None ==> !has_driver(device, driver),
        device.driver is Some ==> (has_driver(device, driver) <==> trim((device.driver->Some_0)@)
            == driver),
{
}

/// Which file names are sensors: `temp`, a number of at most 32 bits and
/// `_input`, and no others.
pub proof fn lemma_sensor_file_names(digits: Seq<char>, name: Seq<char>)
    ensures
        sensor_index("temp"@ + digits + "_input"@) == parse_unsigned(digits, 0xffff_ffff),
        sensor_index(name) is Some ==> name.len() >= 10 && name == "temp"@ + name.subrange(
            4,
            name.len() - 6,
        ) + "_input"@,
{
    reveal_strlit("temp");
    reveal_strlit("_input");
    let full = "temp"@ + digits + "_input"@;
    let rest = full.skip(4);
    assert(full.take(4) =~= "temp"@);
    assert(rest =~= digits + "_input"@);
    assert(rest.skip(rest.len() - 6) =~= "_input"@);
    assert(rest.take(rest.len() - 6) =~= digits);
    if sensor_index(name) is Some {
        let tail = name.skip(4);
        assert(name.take(4) == "temp"@);
        assert(tail.skip(tail.len() - 6) == "_input"@);
        assert(name =~= name.take(4) + name.subrange(4, name.len() - 6) + tail.skip(
            tail.len() - 6,
        ));
    }
}

/// Which readings count: whole thousandths of a degree, white space around them
/// aside, from 1 to below 125 degrees.
pub proof fn lemma_plausible_readings(text: Option<String>)
    ensures
        text is None ==> file_temp(text) is None,
        text matches Some(t) ==> file_temp(text) == match parse_unsigned(
            trim(t@),
            0xffff_ffff_ffff_ffff,
        ) {
            Some(v) => if 1000 <= v <= 124999 {
                Some(v)
            } else {
                None
            },
            None => None,
        },
{
}

/// Which file gives a device its temperature: of the sensors with a plausible
/// reading `temp1`, else the one with the least number, and of several with the
/// same number the first.
pub proof fn lemma_first_sensor_decides(files: Seq<SensorFile>, i: int)
    requires
        0 <= i < files.len(),
        sensor_index(files[i].name@) is Some,
        file_temp(files[i].text) is Some,
        forall|j: int|
            0 <= j < files.len() && j != i && sensor_index((#[trigger] files[j]).name@) is Some
                && file_temp(files[j].text) is Some ==> ({
                let a = sensor_index(files[i].name@)->Some_0;
                let b = sensor_index(files[j].name@)->Some_0;
                if a == b {
                    i < j
                } else {
                    a == 1 || (b != 1 && a < b)
                }
            }),
    ensures
        device_temp(files) == file_temp(files[i].text),
{
    lemma_best_sensor_is(files, i);
}

proof fn lemma_best_sensor_is(files: Seq<SensorFile>, i: int)
    requires
        0 <= i < files.len(),
        is_usable(files[i]),
        forall|j: int|
            0 <= j < files.len() && j != i && sensor_index((#[trigger] files[j]).name@) is Some
                && file_temp(files[j].text) is Some ==> ({
                let a = sensor_index(files[i].name@)->Some_0;
                let b = sensor_index(files[j].name@)->Some_0;
                if a == b {
                    i < j
                } else {
                    a == 1 || (b != 1 && a < b)
                }
            }),
    ensures
        best_sensor(files) == Some(
            (sensor_index(files[i].name@)->Some_0, file_temp(files[i].text)->Some_0),
        ),
    decreases files.len(),
{
    let n = files.len() - 1;
    let front = files.drop_last();
    assert(files[n] == files.last());
    if i < n {
        assert(front[i] == files[i]);
        assert forall|j: int|
            0 <= j < front.len() && j != i && sensor_index((#[trigger] front[j]).name@) is Some
                && file_temp(front[j].text) is Some implies ({
            let a = sensor_index(front[i].name@)->Some_0;
            let b = sensor_index(front[j].name@)->Some_0;
            if a == b {
                i < j
            } else {
                a == 1 || (b != 1 && a < b)
            }
        }) by {
            assert(front[j] == files[j]);
        }
        lemma_best_sensor_is(front, i);
    } else {
        lemma_best_sensor_is_first(front);
        if best_sensor(front) is Some {
            let (index, milli) = best_sensor(front)->Some_0;
            let j = choose|j: int|
                0 <= j < front.len() && #[trigger] is_usable(front[j]) && sensor_index(
                    front[j].name@,
                ) == Some(index) && file_temp(front[j].text) == Some(milli);
            assert(files[j] == front[j]);
            assert(sensor_index(files[j].name@) is Some);
        }
    }
}

/// A device has no temperature exactly if none of its sensors has a plausible
/// reading.
pub proof fn lemma_no_temperature_without_a_sensor(files: Seq<SensorFile>)
    ensures
        device_temp(files) is None <==> (forall|i: int|
            0 <= i < files.len() ==> sensor_index((#[trigger] files[i]).name@) is None || file_temp(
                files[i].text,
            ) is None),
{
    lemma_best_sensor_is_first(files);
    if device_temp(files) is None {
        assert forall|i: int| 0 <= i < files.len() implies sensor_index(
            (#[trigger] files[i]).name@,
        ) is None || file_temp(files[i].text) is None by {
            assert(!is_usable(files[i]));
        }
    } else {
        let (index, milli) = best_sensor(files)->Some_0;
        let i = choose|i: int|
            0 <= i < files.len() && #[trigger] is_usable(files[i]) && sensor_index(files[i].name@)
                == Some(index) && file_temp(files[i].text) == Some(milli);
        assert(sensor_index(files[i].name@) is Some);
    }
}

/// Device names are ordered by their first difference; of two names of which
/// one begins with the other, the shorter comes first.
pub proof fn lemma_names_by_first_difference(a: Seq<u8>, b: Seq<u8>, k: int)
    requires
        0 <= k <= a.len(),
        k <= b.len(),
        forall|i: int| 0 <= i < k ==> a[i] == b[i],
    ensures
        k < a.len() && k < b.len() && a[k] != b[k] ==> (lex_le(a, b) <==> a[k] < b[k]),
        k == a.len() ==> lex_le(a, b),
        k == b.len() && k < a.len() ==> !lex_le(a, b),
    decreases k,
{
    if k > 0 {
        let (x, y) = (a.drop_first(), b.drop_first());
        assert(a[0] == b[0]);
        assert forall|i: int| 0 <= i < k - 1 implies x[i] == y[i] by {
            assert(a[i + 1] == b[i + 1]);
        }
        lemma_names_by_first_difference(x, y, k - 1);
    }
}

/// Sorted names stand in order, each before every later one.
pub proof fn lemma_sorted_names(names: Seq<Vec<u8>>, i: int, j: int)
    requires
        names_sorted(names),
        0 <= i < j < names.len(),
    ensures
        lex_le(names[i]@, names[j]@),
{
}

// ── Laws of the counters ────────────────────────────────────────────────

/// The first card whose counter could be read decides; zero without one.
pub proof fn lemma_first_card_decides(readings: Seq<Option<Reading>>, k: int)
    requires
        0 <= k <= readings.len(),
        forall|j: int| 0 <= j < k ==> (#[trigger] readings[j]) is None,
    ensures
        k < readings.len() && readings[k] is Some ==> Some(first_reading(readings, 0))
            == readings[k],
        k == readings.len() ==> first_reading(readings, 0).bits == 0,
{
    lemma_first_reading_from(readings, 0, k);
}

proof fn lemma_first_reading_from(readings: Seq<Option<Reading>>, from: int, k: int)
    requires
        0 <= from <= k <= readings.len(),
        forall|j: int| from <= j < k ==> (#[trigger] readings[j]) is None,
    ensures
        first_reading(readings, from) == first_reading(readings, k),
    decreases k - from,
{
    if from < k {
        assert(readings[from] is None);
        lemma_first_reading_from(readings, from + 1, k);
    }
}

/// The largest reading is zero or one of the readings.
pub proof fn lemma_largest_reading_is_attained(readings: Seq<Option<Reading>>)
    ensures
        largest_reading(readings).bits == 0 || exists|i: int|
            0 <= i < readings.len() && #[trigger] readings[i] == Some(largest_reading(readings)),
    decreases readings.len(),
{
    if readings.len() > 0 {
        let front = readings.drop_last();
        lemma_largest_reading_is_attained(front);
        let r = largest_reading(readings);
        assert(readings[readings.len() - 1] == readings.last());
        if r == largest_reading(front) && r.bits != 0 {
            let i = choose|i: int|
                0 <= i < front.len() && #[trigger] front[i] == Some(largest_reading(front));
            assert(readings[i] == front[i]);
        }
    }
}

/// The average of some values: zero for none; a single one for itself; the
/// whole part of the sum over the number else, where one more value adds
/// itself to the sum.
pub proof fn lemma_average_of_values(values: Seq<u64>, v: u64)
    ensures
        average(Seq::empty()) == 0,
        average(seq![v]) == v,
        sum(values.push(v)) == sum(values) + v,
        sum(Seq::empty()) == 0,
        values.len() > 0 ==> average(values) * values.len() <= sum(values) < average(values)
            * values.len() + values.len(),
{
    assert(values.push(v).drop_last() =~= values);
    assert(values.push(v).last() == v);
    assert(seq![v].drop_last() =~= Seq::<u64>::empty());
    assert(sum(seq![v].drop_last()) == 0);
    assert(sum(seq![v]) == v);
    if values.len() > 0 {
        let (s, n) = (sum(values) as int, values.len() as int);
        vstd::arithmetic::div_mod::lemma_fundamental_div_mod(s, n);
        vstd::arithmetic::div_mod::lemma_mod_bound(s, n);
        vstd::arithmetic::mul::lemma_mul_is_commutative(n, s / n);
    }
}

/// A reported number is there exactly if the expected one is, and equals it.
pub proof fn lemma_reported_number(r: Option<u64>, expected: Option<int>)
    ensures
        is_number(r, expected) <==> match r {
            Some(v) => expected == Some(v as int),
            None => expected is None,
        },
{
}

/// The driver names are looked for in the order in which they are given.
pub proof fn lemma_names_keep_their_order(names: Seq<&str>, i: int)
    requires
        0 <= i < names.len(),
    ensures
        name_texts(names).len() == names.len(),
        name_texts(names)[i] == names[i]@,
{
}

} // verus!
