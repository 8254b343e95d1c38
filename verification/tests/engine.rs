use nexmon::app::{AppState, CpuSample, NetSample, SystemSample};
use nexmon::collector::{compute_overall, refresh};
use nexmon::process::{ProcessInfo, SortColumn};
use nexmon::ring::HISTORY_LEN;

fn cpu(name: &str, centi: u32) -> CpuSample {
    CpuSample { name: name.to_string(), usage: centi }
}

fn iface(name: &str, rx: u64, tx: u64) -> NetSample {
    NetSample { name: name.to_string(), rx, tx }
}

fn proc_entry(pid: u32, name: &str, cpu_centi: u32) -> ProcessInfo {
    ProcessInfo {
        pid,
        name: name.to_string(),
        cpu_usage: cpu_centi,
        memory: 0,
        status: "Run".to_string(),
    }
}

fn empty_sample() -> SystemSample {
    SystemSample { cpus: Vec::new(), interfaces: Vec::new(), processes: Vec::new(), gpu_text: None }
}

#[test]
fn overall_cpu_is_the_mean_of_core_usages() {
    let cores = vec![cpu("cpu0", 1000), cpu("cpu1", 9000), cpu("cpu2", 5000)];
    assert_eq!(compute_overall(&cores), 5000);
}

#[test]
fn overall_cpu_is_zero_without_cores() {
    assert_eq!(compute_overall(&Vec::new()), 0);
}

#[test]
fn refresh_tracks_cores_by_identity() {
    let mut app = AppState::new(500, false, 100, "cpu".to_string());
    let mut sample = empty_sample();
    sample.cpus = vec![cpu("cpu0", 2550), cpu("cpu1", 7550)];
    refresh(&mut app, sample);
    assert_eq!(app.cpu_history.len(), 2);
    assert_eq!(app.cpu_history[0].core_name, "cpu0");
    assert_eq!(app.cpu_history[0].usage, 2550);
    assert_eq!(app.overall_cpu, 5050);
    // The window ends with the rounded whole-percent sample.
    let vals = app.cpu_history[0].history.values();
    assert_eq!(vals[HISTORY_LEN - 1], 26);
    assert_eq!(vals[HISTORY_LEN - 2], 0);
    // A second tick updates the same entry instead of adding one.
    let mut sample = empty_sample();
    sample.cpus = vec![cpu("cpu0", 1000), cpu("cpu1", 3000)];
    refresh(&mut app, sample);
    assert_eq!(app.cpu_history.len(), 2);
    assert_eq!(app.cpu_history[0].usage, 1000);
    assert_eq!(app.overall_cpu, 2000);
    let vals = app.cpu_history[0].history.values();
    assert_eq!(vals[HISTORY_LEN - 2], 26);
    assert_eq!(vals[HISTORY_LEN - 1], 10);
}

#[test]
fn refresh_skips_loopback_unless_enabled() {
    let mut app = AppState::new(500, false, 100, "cpu".to_string());
    let mut sample = empty_sample();
    sample.interfaces = vec![iface("lo", 5, 5), iface("eth0", 100, 200)];
    refresh(&mut app, sample);
    assert_eq!(app.network_history.len(), 1);
    assert_eq!(app.network_history[0].interface_name, "eth0");
    assert_eq!(app.network_history[0].rx_bytes, 100);
    assert_eq!(app.network_history[0].tx_bytes, 200);

    let mut app = AppState::new(500, true, 100, "cpu".to_string());
    let mut sample = empty_sample();
    sample.interfaces = vec![iface("lo", 5, 5), iface("eth0", 100, 200)];
    refresh(&mut app, sample);
    assert_eq!(app.network_history.len(), 2);
    assert_eq!(app.network_history[0].interface_name, "lo");
}

#[test]
fn interfaces_persist_when_they_stop_reporting() {
    let mut app = AppState::new(500, false, 100, "cpu".to_string());
    let mut sample = empty_sample();
    sample.interfaces = vec![iface("eth0", 1, 1), iface("wlan0", 2, 2)];
    refresh(&mut app, sample);
    assert_eq!(app.network_history.len(), 2);
    let mut sample = empty_sample();
    sample.interfaces = vec![iface("eth0", 3, 3)];
    refresh(&mut app, sample);
    // The vanished interface keeps its entry and its last counters.
    assert_eq!(app.network_history.len(), 2);
    assert_eq!(app.network_history[1].interface_name, "wlan0");
    assert_eq!(app.network_history[1].rx_bytes, 2);
    assert_eq!(app.network_history[0].rx_bytes, 3);
}

#[test]
fn repeated_refresh_keeps_window_length_and_snapshot() {
    let mk = || {
        let mut s = empty_sample();
        s.cpus = vec![cpu("cpu0", 4000)];
        s.interfaces = vec![iface("eth0", 10, 20)];
        s.processes = vec![proc_entry(1, "a", 100), proc_entry(2, "b", 300)];
        s
    };
    let mut app = AppState::new(500, false, 100, "cpu".to_string());
    refresh(&mut app, mk());
    let first: Vec<u32> = app.processes.iter().map(|p| p.pid).collect();
    let cpu_window_len = app.cpu_history[0].history.len();
    refresh(&mut app, mk());
    let second: Vec<u32> = app.processes.iter().map(|p| p.pid).collect();
    assert_eq!(first, second);
    assert_eq!(cpu_window_len, HISTORY_LEN);
    assert_eq!(app.cpu_history[0].history.len(), HISTORY_LEN);
    assert_eq!(app.network_history[0].rx_history.len(), HISTORY_LEN);
}

#[test]
fn scenario_cpu_descending_with_limit_two() {
    // interval=500ms, max-processes=2, sort=cpu descending; processes
    // (1,"a",10%), (2,"b",90%), (3,"c",50%) leave (2,"b") then (3,"c").
    let mut app = AppState::new(500, false, 2, "cpu".to_string());
    assert!(matches!(app.sort_column, SortColumn::Cpu));
    assert!(!app.sort_ascending);
    let mut sample = empty_sample();
    sample.processes = vec![
        proc_entry(1, "a", 1000),
        proc_entry(2, "b", 9000),
        proc_entry(3, "c", 5000),
    ];
    refresh(&mut app, sample);
    let got: Vec<(u32, String, u32)> = app
        .processes
        .iter()
        .map(|p| (p.pid, p.name.clone(), p.cpu_usage))
        .collect();
    assert_eq!(
        got,
        vec![(2, "b".to_string(), 9000), (3, "c".to_string(), 5000)]
    );
}

#[test]
fn scenario_gpu_command_absent_is_unavailable() {
    let mut app = AppState::new(500, false, 100, "cpu".to_string());
    let sample = empty_sample();
    refresh(&mut app, sample);
    assert!(app.gpus.is_none());
    // Command ran but produced no valid record: still unavailable.
    let mut sample = empty_sample();
    sample.gpu_text = Some("no valid records here\n".to_string());
    refresh(&mut app, sample);
    assert!(app.gpus.is_none());
    // A valid record makes the readings available.
    let mut sample = empty_sample();
    sample.gpu_text = Some("0, Card, 45, 100, 200, 60\n".to_string());
    refresh(&mut app, sample);
    let gpus = app.gpus.as_ref().expect("available");
    assert_eq!(gpus[0].name, "Card");
    assert_eq!(gpus[0].usage, 45);
}

#[test]
fn scenario_search_chr_keeps_chrome_and_chromium() {
    let mut app = AppState::new(500, false, 100, "pid".to_string());
    app.search_query = "chr".to_string();
    let mut sample = empty_sample();
    sample.processes = vec![
        proc_entry(10, "chrome", 100),
        proc_entry(11, "bash", 200),
        proc_entry(12, "chromium", 300),
    ];
    refresh(&mut app, sample);
    let names: Vec<String> = app.processes.iter().map(|p| p.name.clone()).collect();
    assert_eq!(names.len(), 2);
    assert!(names.contains(&"chrome".to_string()));
    assert!(names.contains(&"chromium".to_string()));
}

#[test]
fn sort_configuration_is_parsed_case_insensitively() {
    assert!(matches!(
        AppState::new(500, false, 100, "PID".to_string()).sort_column,
        SortColumn::Pid
    ));
    assert!(matches!(
        AppState::new(500, false, 100, "Name".to_string()).sort_column,
        SortColumn::Name
    ));
    assert!(matches!(
        AppState::new(500, false, 100, "mem".to_string()).sort_column,
        SortColumn::Memory
    ));
    assert!(matches!(
        AppState::new(500, false, 100, "MEMORY".to_string()).sort_column,
        SortColumn::Memory
    ));
    assert!(matches!(
        AppState::new(500, false, 100, "sideways".to_string()).sort_column,
        SortColumn::Cpu
    ));
}

#[test]
fn selection_moves_and_clamps() {
    let mut app = AppState::new(500, false, 100, "pid".to_string());
    // No-ops on an empty list.
    app.next_process();
    app.previous_process();
    assert_eq!(app.selected_process, 0);
    let mut sample = empty_sample();
    sample.processes = vec![proc_entry(1, "a", 0), proc_entry(2, "b", 0), proc_entry(3, "c", 0)];
    refresh(&mut app, sample);
    app.next_process();
    app.next_process();
    app.next_process();
    assert_eq!(app.selected_process, 2);
    app.previous_process();
    assert_eq!(app.selected_process, 1);
    app.previous_process();
    app.previous_process();
    assert_eq!(app.selected_process, 0);
}

#[test]
fn selection_is_clamped_when_the_list_shrinks() {
    let mut app = AppState::new(500, false, 100, "pid".to_string());
    let mut sample = empty_sample();
    sample.processes = vec![proc_entry(1, "a", 0), proc_entry(2, "b", 0), proc_entry(3, "c", 0)];
    refresh(&mut app, sample);
    app.next_process();
    app.next_process();
    assert_eq!(app.selected_process, 2);
    let mut sample = empty_sample();
    sample.processes = vec![proc_entry(1, "a", 0)];
    refresh(&mut app, sample);
    assert_eq!(app.selected_process, 0);
}

#[test]
fn snapshot_respects_the_configured_maximum() {
    let mut app = AppState::new(500, false, 3, "pid".to_string());
    let mut sample = empty_sample();
    sample.processes = (1..=10u32).map(|i| proc_entry(i, "p", 0)).collect();
    refresh(&mut app, sample);
    assert_eq!(app.processes.len(), 3);
}
