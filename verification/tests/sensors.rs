use thermaltaked::sensors::{
    amd_gpu_name, chip_order, cpu_fields, cpu_name, cpu_times, cpu_times_from, find_temp, kernel_release,
    or_detected, psu_name, rating_from_model, select_fans, visible_fans, CpuSampler, FanChip,
    FanChoice, Names, TempChip, CPU_TEMP_SOURCES, GPU_TEMP_SOURCES,
};

#[test]
fn rating_from_model_name() {
    let rating = |model| rating_from_model(model).map(|watts| watts as f32);
    assert_eq!(rating("CORSAIR HX1200i"), Some(1200.0));
    assert_eq!(rating("Corsair RM850i ATX 3.1"), Some(850.0));
    assert_eq!(rating("CORSAIR"), None);
}

#[test]
fn ratings_outside_what_a_supply_offers_are_ignored() {
    assert_eq!(rating_from_model("Corsair SF250"), None);
    assert_eq!(rating_from_model("Corsair AX3001"), None);
    assert_eq!(rating_from_model("Corsair AX3000"), Some(3000));
    assert_eq!(rating_from_model("X 99999999999999999999999 HX300"), Some(300));
    assert_eq!(rating_from_model("RM0850x"), Some(850));
    assert_eq!(rating_from_model(""), None);
}

#[test]
fn cpu_names_keep_the_words_that_matter() {
    let cpuinfo = "processor\t: 0\nvendor_id\t: AuthenticAMD\nmodel name\t: AMD Ryzen 9 9900X3D 12-Core Processor\nflags\t: fpu\n";
    assert_eq!(cpu_name(cpuinfo).as_deref(), Some("Ryzen 9 9900X3D"));
    let intel = "model name\t: Intel(R) Core(TM) i7-8700K CPU @ 3.70GHz\r\n";
    assert_eq!(cpu_name(intel).as_deref(), Some("i7-8700K"));
    assert_eq!(cpu_name("processor\t: 0\n"), None);
    assert_eq!(cpu_name("model name without colon\n"), None);
}

#[test]
fn psu_names_lose_their_suffix() {
    let uevent = "DRIVER=corsair-psu\nHID_ID=0003:00001B1C:00001C05\nHID_NAME=CORSAIR HX1200i Power Supply\n";
    assert_eq!(psu_name(uevent).as_deref(), Some("CORSAIR HX1200i"));
    assert_eq!(psu_name("DRIVER=corsair-psu\n"), None);
    assert_eq!(psu_name("HID_NAME=X Power Supply Power Supply").as_deref(), Some("X"));
}

#[test]
fn kernel_releases_lose_their_suffix() {
    assert_eq!(kernel_release("7.2.5-200.fc44.x86_64"), "7.2.5");
    assert_eq!(kernel_release("6.18.2"), "6.18.2");
    assert_eq!(kernel_release(""), "");
}

#[test]
fn amd_gpu_names_come_from_the_table() {
    let table = "# List of AMDGPU IDs\n#\n1.0.0\n7550, C0, AMD Radeon RX 9070 XT\n744C, C8, AMD Radeon RX 7900 XTX\n744C, CC, AMD Radeon RX 7900 GRE\n";
    assert_eq!(amd_gpu_name("0x744c", "0xcc", table).as_deref(), Some("Radeon RX 7900 GRE"));
    assert_eq!(amd_gpu_name("0x7550", "0xc0", table).as_deref(), Some("Radeon RX 9070 XT"));
    assert_eq!(amd_gpu_name("0x7550", "0xc1", table), None);
    assert_eq!(amd_gpu_name("0xzz", "0xc0", table), None);
    // A matching row without a name is passed over.
    assert_eq!(amd_gpu_name("0x10", "0x1", "10, 1\n10, 01, AMD X\n").as_deref(), Some("X"));
}

#[test]
fn cpu_times_from_proc_stat() {
    let stat = "cpu  10 20 30 40 50 60 70\ncpu0 1 2 3 4 5 6 7\n";
    assert_eq!(cpu_fields(stat), Some(vec![10, 20, 30, 40, 50, 60, 70]));
    assert_eq!(cpu_times(stat), Some((190, 280)));
    assert_eq!(cpu_times("cpu 1 2 3 4\n"), None);
    assert_eq!(cpu_times(""), None);
    assert_eq!(cpu_times("cpu 1 x 2 3 4 5\n"), Some((6, 15)));
    assert_eq!(cpu_times_from(&[0, 0, 0, u64::MAX, 0]), Some((0, u64::MAX)));
}

#[test]
fn cpu_usage_is_measured_between_readings() {
    let mut sampler = CpuSampler::new();
    assert_eq!(sampler.sample((100, 1000)), None);
    assert_eq!(sampler.sample((150, 1100)), Some((50, 100)));
    assert_eq!(sampler.sample((150, 1100)), None);
    assert_eq!(sampler.sample((140, 1200)), Some((0, 100)));
    assert_eq!(sampler.previous, Some((140, 1200)));
}

fn temp_chip(name: &str, labels: &[(usize, &str)]) -> TempChip {
    let mut all = vec![None; 16];
    for &(index, label) in labels {
        all[index - 1] = Some(label.to_owned());
    }
    TempChip { name: name.to_owned(), labels: all }
}

#[test]
fn temperatures_follow_the_sources_in_order() {
    let chips = vec![
        temp_chip("amdgpu", &[(1, "edge"), (2, "junction")]),
        temp_chip("coretemp", &[(1, "Core 0"), (3, "Package id 0")]),
        temp_chip("k10temp", &[(2, "Tccd1")]),
    ];
    // k10temp comes first among the sources but has no Tctl.
    assert_eq!(find_temp(&chips, &CPU_TEMP_SOURCES), Some((1, 3)));
    assert_eq!(find_temp(&chips, &GPU_TEMP_SOURCES), Some((0, 1)));
    assert_eq!(find_temp(&chips, &[("nvme", "Composite")]), None);
    let nouveau = vec![temp_chip("nouveau", &[(1, "")])];
    assert_eq!(find_temp(&nouveau, &GPU_TEMP_SOURCES), Some((0, 1)));
    // Only the first chip of a name is looked at.
    let twice = vec![temp_chip("k10temp", &[]), temp_chip("k10temp", &[(1, "Tctl")])];
    assert_eq!(find_temp(&twice, &CPU_TEMP_SOURCES), None);
}

fn fan_chip(name: &str, inputs: &[(u32, Option<&str>)]) -> FanChip {
    FanChip {
        name: name.to_owned(),
        inputs: inputs.iter().map(|&(i, l)| (i, l.map(str::to_owned))).collect(),
    }
}

fn summary(fans: &[FanChoice]) -> Vec<(usize, u32, String, bool)> {
    fans.iter().map(|f| (f.chip, f.index, f.label.clone(), f.always_shown)).collect()
}

#[test]
fn every_fan_is_shown_when_none_is_configured() {
    let chips = vec![
        fan_chip("amdgpu", &[(1, None)]),
        fan_chip("nct6799", &[(1, Some("CPU_FAN")), (2, None), (7, None)]),
    ];
    let fans = select_fans(&chips, &[]);
    assert_eq!(
        summary(&fans),
        vec![
            (0, 1, "amdgpu".to_owned(), false),
            (1, 1, "CPU_FAN".to_owned(), false),
            (1, 2, "fan2".to_owned(), false),
            (1, 7, "fan7".to_owned(), false),
        ]
    );
    assert!(fans.iter().all(|f| f.order == usize::MAX));
}

fn hwmon(name: &str, dir: &str) -> (String, Vec<u8>) {
    (name.to_owned(), dir.as_bytes().to_vec())
}

#[test]
fn chips_are_taken_by_name_then_path() {
    let found = vec![
        hwmon("nct6799", "/sys/class/hwmon/hwmon3"),
        hwmon("amdgpu", "/sys/class/hwmon/hwmon10"),
        hwmon("k10temp", "/sys/class/hwmon/hwmon1"),
        hwmon("amdgpu", "/sys/class/hwmon/hwmon2"),
    ];
    assert_eq!(chip_order(&found), vec![1, 3, 2, 0]);
    let mut sorted = found.clone();
    sorted.sort();
    let ordered: Vec<_> = chip_order(&found).into_iter().map(|i| found[i].clone()).collect();
    assert_eq!(ordered, sorted);
    assert_eq!(chip_order(&[]), Vec::<usize>::new());
    let prefixes = vec![hwmon("nct", "/a"), hwmon("", "/b"), hwmon("nc", "/c")];
    assert_eq!(chip_order(&prefixes), vec![1, 2, 0]);
}

#[test]
fn unconfigured_fans_follow_the_chip_order() {
    let found = vec![
        hwmon("nct6799", "/sys/class/hwmon/hwmon3"),
        hwmon("amdgpu", "/sys/class/hwmon/hwmon4"),
    ];
    let inputs = [vec![(2, None), (5, None)], vec![(1, None)]];
    let chips: Vec<FanChip> = chip_order(&found)
        .into_iter()
        .map(|i| FanChip { name: found[i].0.clone(), inputs: inputs[i].clone() })
        .collect();
    let fans = select_fans(&chips, &[]);
    assert_eq!(
        summary(&fans),
        vec![
            (0, 1, "amdgpu".to_owned(), false),
            (1, 2, "fan2".to_owned(), false),
            (1, 5, "fan5".to_owned(), false),
        ]
    );
}

#[test]
fn configured_fans_come_in_the_order_written() {
    let chips = vec![
        fan_chip("amdgpu", &[(1, None)]),
        fan_chip("nct6799", &[(1, Some("CPU_FAN")), (2, None), (7, None)]),
    ];
    let configured = vec![
        ("nct6799/fan7".to_owned(), "Rear".to_owned()),
        ("amdgpu/fan1".to_owned(), "GPU".to_owned()),
        ("nct6799/fan3".to_owned(), "Missing".to_owned()),
    ];
    let fans = select_fans(&chips, &configured);
    assert_eq!(
        summary(&fans),
        vec![(1, 7, "Rear".to_owned(), true), (0, 1, "GPU".to_owned(), true)]
    );
    assert_eq!(fans[0].order, 0);
    assert_eq!(fans[1].order, 1);
}

#[test]
fn fans_that_stand_still_show_only_when_configured() {
    let fans = vec![
        FanChoice { chip: 0, index: 1, label: "a".to_owned(), always_shown: false, order: usize::MAX },
        FanChoice { chip: 0, index: 2, label: "b".to_owned(), always_shown: true, order: 0 },
        FanChoice { chip: 0, index: 3, label: "c".to_owned(), always_shown: false, order: usize::MAX },
        FanChoice { chip: 0, index: 4, label: "d".to_owned(), always_shown: true, order: 1 },
    ];
    let shown = visible_fans(&fans, &[Some(0), Some(0), Some(900), None]);
    let shown: Vec<(&str, u32)> = shown.iter().map(|f| (f.label, f.rpm)).collect();
    assert_eq!(shown, vec![("b", 0), ("c", 900)]);
}

#[test]
fn names_are_configured_or_detected() {
    assert_eq!(or_detected(&String::new(), Some("Ryzen 7".to_owned()), "CPU"), "Ryzen 7");
    assert_eq!(or_detected(&String::new(), None, "CPU"), "CPU");
    assert_eq!(or_detected(&"Mine".to_owned(), Some("Ryzen 7".to_owned()), "CPU"), "Mine");
    let names = Names::default();
    assert!(names.cpu.is_empty() && names.gpu.is_empty() && names.psu.is_empty());
}
