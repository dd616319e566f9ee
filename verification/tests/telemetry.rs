use retro_aio::single::Reading;
use retro_aio::telemetry::{
    average_mhz, get_stats, hwmon_dirs, read_amdgpu_busy_percent, read_amdgpu_vram_used,
    read_hwmon_temp_celsius, read_sensor_temperature, temp_sensor_index, HwmonDevice, Samples,
    SensorFile,
};

fn reading(v: f32) -> Reading {
    Reading { bits: v.to_bits() }
}

fn file(name: &str, text: &str) -> SensorFile {
    SensorFile { name: name.to_string(), text: Some(text.to_string()) }
}

fn device(driver: &str, files: Vec<SensorFile>) -> HwmonDevice {
    HwmonDevice { driver: Some(driver.to_string()), files }
}

#[test]
fn device_names_are_sorted_bytewise() {
    let names: Vec<Vec<u8>> =
        ["hwmon2", "hwmon10", "hwmon0", "hwmon1"].iter().map(|s| s.as_bytes().to_vec()).collect();
    let mut expected = names.clone();
    expected.sort();
    assert_eq!(hwmon_dirs(names), expected);
    assert_eq!(expected[2], b"hwmon10".to_vec());
}

#[test]
fn sensor_file_names() {
    assert_eq!(temp_sensor_index("temp1_input"), Some(1));
    assert_eq!(temp_sensor_index("temp12_input"), Some(12));
    assert_eq!(temp_sensor_index("temp+3_input"), Some(3));
    assert_eq!(temp_sensor_index("temp4294967295_input"), Some(u32::MAX));
    for bad in ["temp4294967296_input", "temp_input", "temp1_max", "fan1_input", "uevent", "temp", ""] {
        assert_eq!(temp_sensor_index(bad), None, "{bad}");
    }
}

#[test]
fn the_lowest_plausible_sensor_is_read() {
    let files = vec![
        file("uevent", "x"),
        file("temp3_input", "50000\n"),
        file("temp1_input", "0\n"),
        file("temp10_input", "40000"),
        file("temp2_input", "125000"),
    ];
    assert_eq!(read_hwmon_temp_celsius(&files), Some(50_000));
    assert_eq!(read_hwmon_temp_celsius(&vec![file("temp1_input", "1000")]), Some(1000));
    assert_eq!(read_hwmon_temp_celsius(&vec![file("temp1_input", "124999")]), Some(124_999));
    for bad in ["999", "125000", "-5", "hot", ""] {
        assert_eq!(read_hwmon_temp_celsius(&vec![file("temp1_input", bad)]), None, "{bad}");
    }
    let unreadable = SensorFile { name: "temp1_input".to_string(), text: None };
    assert_eq!(
        read_hwmon_temp_celsius(&vec![unreadable, file("temp2_input", "42000")]),
        Some(42_000)
    );
}

#[test]
fn temp1_is_preferred() {
    let files = vec![file("temp0_input", "30000\n"), file("temp1_input", "40000\n")];
    assert_eq!(read_hwmon_temp_celsius(&files), Some(40_000));
    let files = vec![file("temp1_input", "40000"), file("temp0_input", "30000")];
    assert_eq!(read_hwmon_temp_celsius(&files), Some(40_000));
    let files = vec![
        file("temp3_input", "33000"),
        file("temp0_input", "30000"),
        file("temp1_input", "0"),
        file("temp2_input", "32000"),
    ];
    assert_eq!(read_hwmon_temp_celsius(&files), Some(30_000));
}

#[test]
fn the_driver_order_decides() {
    let devices = vec![
        device("coretemp\n", vec![file("temp1_input", "30000")]),
        device("k10temp", vec![file("temp1_input", "0")]),
        HwmonDevice { driver: None, files: vec![file("temp1_input", "31000")] },
        device(" k10temp ", vec![file("temp2_input", "61000")]),
    ];
    let cpu = vec!["k10temp", "cpu_thermal", "coretemp"];
    assert_eq!(read_sensor_temperature(&cpu, &devices), Some(61_000));
    assert_eq!(read_sensor_temperature(&vec!["coretemp"], &devices), Some(30_000));
    assert_eq!(read_sensor_temperature(&vec!["amdgpu", "radeon"], &devices), None);
}

#[test]
fn gpu_counters() {
    assert_eq!(read_amdgpu_vram_used(&vec![None, Some(reading(7.0))]).bits, reading(7.0).bits);
    assert_eq!(
        read_amdgpu_vram_used(&vec![Some(reading(1.0)), Some(reading(7.0))]).bits,
        reading(1.0).bits
    );
    assert_eq!(read_amdgpu_vram_used(&vec![None, None]).bits, 0);
    assert_eq!(
        read_amdgpu_busy_percent(&vec![Some(reading(3.0)), Some(reading(97.0))]).bits,
        reading(97.0).bits
    );
    assert_eq!(
        read_amdgpu_busy_percent(&vec![Some(reading(-3.0)), Some(reading(f32::NAN)), None]).bits,
        0
    );
}

#[test]
fn core_frequencies_are_averaged() {
    assert_eq!(average_mhz(&vec![]), 0);
    assert_eq!(average_mhz(&vec![3000, 3001]), 3000);
    assert_eq!(average_mhz(&vec![4000, 5000, 3003]), 4001);
}

#[test]
fn a_full_snapshot() {
    let samples = Samples {
        hwmon: vec![
            device("amdgpu", vec![file("temp1_input", "55500")]),
            device("k10temp", vec![file("temp1_input", "48250")]),
        ],
        vram_used: vec![Some(reading(2147483648.0)), None],
        amd_busy: vec![Some(reading(12.0)), None],
        nvidia_busy: Some(reading(81.0)),
        core_mhz: vec![4000, 4200],
        ram_used: 6 << 30,
        ram_total: 32 << 30,
    };
    let s = get_stats(&samples);
    assert_eq!(s.cpu_temp, Some(48_250));
    assert_eq!(s.gpu_temp, Some(55_500));
    assert_eq!(s.cpu_freq_mhz, 4100);
    assert_eq!(f32::from_bits(s.gpu_vram_used.bits), 2147483648.0);
    assert_eq!(f32::from_bits(s.gpu_busy_percent.bits), 81.0);
    assert_eq!((s.ram_used, s.ram_total), (6 << 30, 32 << 30));
}

#[test]
fn an_empty_snapshot() {
    let samples = Samples {
        hwmon: vec![],
        vram_used: vec![],
        amd_busy: vec![],
        nvidia_busy: None,
        core_mhz: vec![],
        ram_used: 0,
        ram_total: 0,
    };
    let s = get_stats(&samples);
    assert_eq!((s.cpu_temp, s.gpu_temp, s.cpu_freq_mhz), (None, None, 0));
    assert_eq!((s.gpu_vram_used.bits, s.gpu_busy_percent.bits), (0, 0));
}

#[test]
fn index_shifts_do_not_change_the_temperature() {
    let build = |extra: Option<usize>| {
        let mut v = vec![
            device("nvme", vec![file("temp1_input", "33000")]),
            device("amdgpu", vec![file("temp1_input", "55000")]),
            device("k10temp", vec![file("temp1_input", "44000")]),
        ];
        if let Some(i) = extra {
            v.insert(i, device("iwlwifi_1", vec![file("temp1_input", "29000")]));
        }
        v
    };
    for drivers in [vec!["k10temp", "coretemp"], vec!["amdgpu", "radeon"]] {
        let plain = read_sensor_temperature(&drivers, &build(None));
        assert!(plain.is_some());
        for i in 0..=3 {
            assert_eq!(read_sensor_temperature(&drivers, &build(Some(i))), plain);
        }
    }
}
