use sysmon::process::ProcessSort;
use sysmon::snapshot::{
    counter_total, cpu_temperature, is_cpu_sensor, process_table, top_processes, valid_readings,
    MetricsSample, RawProcess, SysCache,
};

fn raw(pid: u32, name: &str, user: Option<&str>, cpu: u32, mem: u64, parent: Option<u32>) -> RawProcess {
    RawProcess {
        pid,
        name: name.to_string(),
        user: user.map(|u| u.to_string()),
        cmd: String::new(),
        cpu,
        mem_bytes: mem,
        parent,
    }
}

fn sample(rx: u64, tx: u64) -> MetricsSample {
    MetricsSample {
        cpu_model: "cpu".to_string(),
        cpu_global: 1234,
        cpu_cores: vec![1000, 2000],
        total_memory: 8000,
        available_memory: 3000,
        uptime: 42,
        networks: vec![(rx, tx)],
        disk_sectors: None,
        disks: Vec::new(),
        sensors: Vec::new(),
        processes: Vec::new(),
    }
}

#[test]
fn test_sys_cache_new() {
    let mut os = sysinfo::System::new();
    os.refresh_memory();
    let mut s = sample(0, 0);
    s.total_memory = os.total_memory();
    s.available_memory = os.available_memory();
    let mut sys = SysCache::new();
    sys.refresh(s);
    assert!(sys.total_mem > 0);
}

#[test]
fn first_refresh_reports_no_rate() {
    let mut sys = SysCache::new();
    sys.refresh(sample(5_000_000_000, 7_000_000_000));
    assert_eq!(sys.rx_rate, 0);
    assert_eq!(sys.tx_rate, 0);
    sys.refresh(sample(5_000_000_300, 7_000_000_050));
    assert_eq!(sys.rx_rate, 300);
    assert_eq!(sys.tx_rate, 50);
}

#[test]
fn rates_saturate_when_counters_go_back() {
    let mut sys = SysCache::new();
    sys.refresh(sample(1000, 1000));
    sys.refresh(sample(400, 1500));
    assert_eq!(sys.rx_rate, 0);
    assert_eq!(sys.tx_rate, 500);
    sys.refresh(sample(400, 1500));
    assert_eq!(sys.rx_rate, 0);
    assert_eq!(sys.tx_rate, 0);
}

#[test]
fn refresh_copies_memory_and_cpu() {
    let mut sys = SysCache::new();
    sys.refresh(sample(0, 0));
    assert_eq!(sys.total_mem, 8000);
    assert_eq!(sys.used_mem, 5000);
    assert_eq!(sys.uptime, 42);
    assert_eq!(sys.cpu_global, 1234);
    assert_eq!(sys.cpu_cores, vec![1000, 2000]);
    let mut s = sample(0, 0);
    s.available_memory = 9000;
    sys.refresh(s);
    assert_eq!(sys.used_mem, 0);
}

#[test]
fn disk_rates_count_sectors() {
    let mut sys = SysCache::new();
    let mut s = sample(0, 0);
    s.disk_sectors = Some((100, 200));
    sys.refresh(s);
    assert_eq!(sys.disk_read_rate, 0);
    let mut s = sample(0, 0);
    s.disk_sectors = Some((110, 204));
    sys.refresh(s);
    assert_eq!(sys.disk_read_rate, 5120);
    assert_eq!(sys.disk_write_rate, 2048);
    sys.refresh(sample(0, 0));
    assert_eq!(sys.disk_read_rate, 0);
}

#[test]
fn network_counters_sum_interfaces() {
    assert_eq!(counter_total(&vec![(1, 2), (10, 20)], true), 11);
    assert_eq!(counter_total(&vec![(1, 2), (10, 20)], false), 22);
    assert_eq!(counter_total(&vec![(u64::MAX, 0), (5, 0)], true), u64::MAX);
    assert_eq!(counter_total(&Vec::new(), true), 0);
}

#[test]
fn sensors_keep_positive_readings() {
    let readings = vec![
        ("CPU Package".to_string(), 50_000),
        ("nvme".to_string(), 0),
        ("Core 0".to_string(), 40_000),
        ("acpitz".to_string(), -5),
        ("gpu".to_string(), 70_000),
    ];
    let valid = valid_readings(readings);
    let labels: Vec<&str> = valid.iter().map(|(l, _)| l.as_str()).collect();
    assert_eq!(labels, vec!["CPU Package", "Core 0", "gpu"]);
    assert_eq!(cpu_temperature(&valid), 45_000);
    assert!(is_cpu_sensor("k10temp CPU"));
    assert!(!is_cpu_sensor("acpitz"));
}

#[test]
fn cpu_temperature_without_cpu_sensors_is_zero() {
    assert_eq!(cpu_temperature(&vec![("gpu".to_string(), 60_000)]), 0);
    assert_eq!(cpu_temperature(&Vec::new()), 0);
    assert_eq!(cpu_temperature(&vec![("core 1".to_string(), 3), ("core 2".to_string(), 4)]), 3);
}

#[test]
fn process_table_resolves_users_and_drops_repeated_pids() {
    let table = process_table(vec![
        raw(1, "init", None, 0, 0, None),
        raw(2, "sh", Some("alice"), 0, 0, Some(1)),
        raw(1, "dup", Some("bob"), 0, 0, None),
    ]);
    assert_eq!(table.len(), 2);
    assert_eq!(table[0].user, "root");
    assert_eq!(table[0].name, "init");
    assert_eq!(table[1].user, "alice");
}

#[test]
fn cache_orders_by_key() {
    let mut s = sample(0, 0);
    s.processes = vec![
        raw(3, "c", None, 100, 500, None),
        raw(1, "a", None, 300, 100, None),
        raw(2, "b", None, 200, 900, Some(3)),
    ];
    let mut sys = SysCache::new();
    sys.refresh(s);
    let by_cpu: Vec<u32> = sys.processes().iter().map(|p| p.pid).collect();
    assert_eq!(by_cpu, vec![1, 2, 3]);
    sys.set_sort(ProcessSort::Memory);
    let by_mem: Vec<u32> = sys.processes().iter().map(|p| p.pid).collect();
    assert_eq!(by_mem, vec![2, 3, 1]);
    sys.set_sort(ProcessSort::Tree);
    let tree: Vec<(u32, usize)> = sys.processes().iter().map(|p| (p.pid, p.indent)).collect();
    assert_eq!(tree, vec![(1, 0), (3, 0), (2, 1)]);
    let table = process_table(vec![raw(9, "x", None, 0, 0, None), raw(4, "y", None, 0, 0, None)]);
    let by_pid: Vec<u32> = top_processes(&table, ProcessSort::Pid).iter().map(|p| p.pid).collect();
    assert_eq!(by_pid, vec![4, 9]);
    assert!(sys.battery_percentage().is_none());
    let mut s = sample(0, 0);
    s.disks = vec![sysmon::process::DiskInfo {
        _name: "sda1".to_string(),
        mount_point: "/".to_string(),
        total: 100,
        available: 40,
    }];
    sys.refresh(s);
    assert_eq!(sys.disks().len(), 1);
    assert_eq!(sys.disks()[0].mount_point, "/");
    assert_eq!(sys.disks()[0].available, 40);
}
