use live::metrics::{
    cores, is_number_name, metrics_json, network, os_name, processes, throttled, Collector, Counters, Cpu, Disk,
    Memory,
};

fn rate(current: &Counters, before: &Counters, seconds: f64) -> Option<(f64, f64)> {
    if seconds <= 0.0 {
        return None;
    }
    let deltas = current.deltas(before);
    if deltas.is_empty() {
        return None;
    }
    Some((
        deltas.iter().map(|v| v.0 as f64).sum::<f64>() / seconds,
        deltas.iter().map(|v| v.1 as f64).sum::<f64>() / seconds,
    ))
}

fn percent(usage: Option<(u64, u64)>) -> Option<f64> {
    usage.map(|(busy, whole)| busy as f64 / whole as f64 * 100.0)
}

#[test]
fn cpu_excludes_guest_and_handles_counter_resets() {
    let old = Cpu::parse("cpu 100 10 20 800 20 10 10 30 90 5").unwrap();
    assert_eq!(old.total, 1000);
    let new = Cpu::parse("cpu 120 10 30 860 20 10 10 40 90 5").unwrap();
    assert_eq!(percent(new.usage(old)), Some(40.0));
    assert_eq!(old.usage(new), None);
    assert_eq!(old.usage(old), None);
    assert!(Cpu::parse("cpu bad").is_none());
}

#[test]
fn cpu_reads_the_aggregate_line_only() {
    let cpu = Cpu::parse("intr 5\ncpu0 1 2 3 4\ncpu  1 2 3 4\ncpu 9 9 9 9").unwrap();
    assert_eq!((cpu.total, cpu.idle), (10, 4));
    assert!(Cpu::parse("cpu 1 2 3").is_none());
    assert!(Cpu::parse("cpu0 1 2 3 4").is_none());
    assert!(Cpu::fits("cpu 1 2 3 4"));
    assert!(!Cpu::fits("cpu 18446744073709551615 1 0 0"));
    let whole = Cpu { total: 100, idle: 90 };
    assert_eq!(whole.usage(Cpu { total: 50, idle: 10 }), Some((0, 50)));
}

#[test]
fn memory_uses_available_and_handles_absent_swap() {
    let m = Memory::parse("MemTotal: 1000 kB\nMemFree: 100 kB\nMemAvailable: 600 kB").unwrap();
    assert_eq!(m.total - m.available, 400 * 1024);
    assert_eq!(m.swap_total, 0);
    assert!(Memory::parse("MemTotal: 0 kB\nMemAvailable: 0 kB").is_none());
    assert!(Memory::parse("MemTotal: 1000 kB").is_none());
}

#[test]
fn memory_clamps_available_and_renders_json() {
    let m = Memory::parse("MemTotal: 4 kB\nMemAvailable: 9 kB\nSwapTotal: 2 kB\nSwapFree: 3 kB\nMemTotal: 8 kB").unwrap();
    assert_eq!((m.total, m.available, m.swap_total, m.swap_free), (8192, 8192, 2048, 3072));
    assert_eq!(
        m.json("0"),
        "{\"total\":8192,\"available\":8192,\"used\":0,\"percent\":0,\"swap_total\":2048,\"swap_used\":0}"
    );
}

#[test]
fn network_ignores_virtual_interfaces_and_counter_resets() {
    let counters = network(
        "eth0: 100 0 0 0 0 0 0 0 200 0\nlo: 900 0 0 0 0 0 0 0 900 0\nveth0: 500 0 0 0 0 0 0 0 500 0",
        &vec!["eth0".to_string()],
    );
    assert_eq!(counters.len(), 1);
    let mut current = Counters::new();
    current.insert("eth0", (200, 400));
    assert_eq!(rate(&current, &counters, 5.0), Some((20.0, 40.0)));
    assert_eq!(rate(&counters, &current, 5.0), None);
    assert_eq!(rate(&current, &Counters::new(), 5.0), None);
}

#[test]
fn counters_are_kept_in_name_order() {
    let physical = vec!["wlan0".to_string(), "eth1".to_string(), "eth0".to_string()];
    let c = network(
        "Inter-|   Receive\n face |bytes\n wlan0: 1 0 0 0 0 0 0 0 2 0\n  eth1: 3 0 0 0 0 0 0 0 4 0\n  eth0: 5 0 0 0 0 0 0 0 6\n  eth0: 7 0 0 0 0 0 0 0 8 0",
        &physical,
    );
    assert_eq!(c.names(), vec!["eth0".to_string(), "eth1".to_string(), "wlan0".to_string()]);
    assert_eq!(c.get("eth0"), Some((7, 8)));
    assert_eq!(c.totals(), Some((11, 14)));
    assert!(c.totals_fit());
    assert_eq!(Counters::new().totals(), None);
}

#[test]
fn disk_preserves_available_space_excluding_reserved_blocks() {
    let disk = Disk::parse("Filesystem 1024-blocks Used Available Capacity Mounted on\n/dev/root 1000 300 650 32% /").unwrap();
    assert_eq!(disk.total, 1024000);
    assert_eq!(disk.available, 665600);
    assert!(Disk::parse("unavailable").is_none());
}

#[test]
fn disk_needs_a_size_and_renders_json() {
    assert!(Disk::parse("x\n/dev/root 0 0 0 0% /").is_none());
    let disk = Disk::parse("/dev/root 2 1 1 50% /\n").unwrap();
    assert_eq!(
        disk.json("50"),
        "{\"total\":2048,\"used\":1024,\"available\":1024,\"percent\":50}"
    );
}

#[test]
fn firmware_flags_and_cores_and_os_name() {
    assert_eq!(throttled("throttled=0x50005"), Some(0x50005));
    assert_eq!(throttled("throttled=0xFF"), Some(255));
    assert_eq!(throttled("throttled=0x"), None);
    assert_eq!(throttled("throttled=0x123456789"), None);
    assert_eq!(cores("cpu 1 2\ncpu0 1\ncpu1 1\ncpux 1\nintr 1"), 2);
    assert_eq!(
        os_name("NAME=x\nPRETTY_NAME=\"Debian GNU/Linux 12 (bookworm)\"\nPRETTY_NAME=other"),
        Some("Debian GNU/Linux 12 (bookworm)".to_string())
    );
    assert_eq!(os_name("NAME=x"), None);
}

#[test]
fn collector_keeps_the_previous_round() {
    let mut c = Collector::new(
        Some("Raspberry Pi 4"),
        Some("PRETTY_NAME=\"Raspbian\""),
        None,
        "linux",
        "aarch64",
    );
    assert_eq!(c.system(), &c.system);
    assert_eq!(
        c.system,
        "{\"model\":\"Raspberry Pi 4\",\"os\":\"Raspbian\",\"kernel\":null,\"architecture\":\"aarch64\"}"
    );
    let physical = vec!["eth0".to_string()];
    let first = c.collect(
        Some("cpu 100 0 0 900\ncpu0 100 0 0 900"),
        Some("eth0: 100 0 0 0 0 0 0 0 200 0"),
        &physical,
    );
    assert_eq!(first.cpu, None);
    assert_eq!(first.cores, 1);
    assert!(first.deltas.is_empty());
    c.refresh(Some("/dev/root 2 1 1 50% /"), Some("throttled=0x0"));
    let second = c.collect(
        Some("cpu 150 0 0 950"),
        Some("eth0: 150 0 0 0 0 0 0 0 260 0"),
        &physical,
    );
    assert_eq!(second.cpu, Some((50, 100)));
    assert_eq!(second.deltas, vec![(50, 60)]);
    assert_eq!(second.throttled, Some(0));
    assert_eq!(second.disk.unwrap().total, 2048);
}

#[test]
fn processes_count_only_numeric_proc_entries() {
    let names: Vec<String> = ["1", "42", "self", "sys", "4096", "1a", "net"]
        .iter()
        .map(|s| s.to_string())
        .collect();
    assert_eq!(processes(&names), 3);
    assert_eq!(processes(&Vec::new()), 0);
    assert!(is_number_name("0123456789"));
    assert!(!is_number_name("12 "));
}

#[test]
fn reset_or_new_interfaces_give_no_change() {
    let mut before = Counters::new();
    before.insert("eth0", (500, 500));
    before.insert("wlan0", (10, 10));
    let mut now = Counters::new();
    now.insert("eth0", (600, 100));
    now.insert("eth1", (5, 5));
    assert!(now.deltas(&before).is_empty());
    now.insert("wlan0", (15, 30));
    assert_eq!(now.deltas(&before), vec![(5, 20)]);
    assert_eq!(now.deltas(&now.duplicate()), vec![(0, 0), (0, 0), (0, 0)]);
}

#[test]
fn metrics_document_lists_every_reading_and_nulls_the_missing() {
    let load = vec!["0.5".to_string(), "0.25".to_string(), "0".to_string()];
    let interfaces = vec!["eth0".to_string()];
    let full = metrics_json(
        100,
        Some("42.5"),
        None,
        4,
        Some("{}"),
        None,
        Some("1500"),
        None,
        Some(&load),
        Some(120),
        &interfaces,
        Some(9),
        Some(7),
        None,
        Some("2.5"),
        Some(0x50005),
    );
    assert_eq!(
        full,
        r#"{"timestamp":100,"uptime":42.5,"cpu":null,"cores":4,"memory":{},"temperature":null,"frequency":1500,"disk":null,"load":[0.5,0.25,0],"processes":120,"interfaces":["eth0"],"received":9,"sent":7,"rx":null,"tx":2.5,"throttled":327685}"#
    );
    let empty = metrics_json(
        0, None, None, 0, None, None, None, None, None, None, &Vec::new(), None, None, None,
        None, None,
    );
    assert_eq!(
        empty,
        r#"{"timestamp":0,"uptime":null,"cpu":null,"cores":0,"memory":null,"temperature":null,"frequency":null,"disk":null,"load":null,"processes":null,"interfaces":[],"received":null,"sent":null,"rx":null,"tx":null,"throttled":null}"#
    );
}
