use nexmon::process::{build_snapshot, ProcessInfo, SortColumn};

fn proc_entry(pid: u32, name: &str, cpu_centi: u32, memory: u64) -> ProcessInfo {
    ProcessInfo {
        pid,
        name: name.to_string(),
        cpu_usage: cpu_centi,
        memory,
        status: "Run".to_string(),
    }
}

fn pids(list: &Vec<ProcessInfo>) -> Vec<u32> {
    list.iter().map(|p| p.pid).collect()
}

#[test]
fn search_query_filters_case_insensitively() {
    let raw = vec![
        proc_entry(1, "chrome", 1000, 10),
        proc_entry(2, "bash", 2000, 20),
        proc_entry(3, "chromium", 3000, 30),
    ];
    let out = build_snapshot(raw, "chr", SortColumn::Pid, true, 100);
    assert_eq!(pids(&out), vec![1, 3]);
    let raw = vec![
        proc_entry(1, "CHROME", 1000, 10),
        proc_entry(2, "bash", 2000, 20),
        proc_entry(3, "Chromium", 3000, 30),
    ];
    let out = build_snapshot(raw, "chr", SortColumn::Pid, true, 100);
    assert_eq!(pids(&out), vec![1, 3]);
}

#[test]
fn empty_query_keeps_every_process() {
    let raw = vec![
        proc_entry(5, "a", 0, 0),
        proc_entry(4, "b", 0, 0),
        proc_entry(6, "c", 0, 0),
    ];
    let out = build_snapshot(raw, "", SortColumn::Pid, true, 100);
    assert_eq!(pids(&out), vec![4, 5, 6]);
}

#[test]
fn no_match_yields_empty_output() {
    let raw = vec![proc_entry(1, "chrome", 0, 0), proc_entry(2, "bash", 0, 0)];
    let out = build_snapshot(raw, "zsh", SortColumn::Pid, true, 100);
    assert!(out.is_empty());
}

#[test]
fn empty_input_yields_empty_output() {
    let out = build_snapshot(Vec::new(), "anything", SortColumn::Cpu, false, 100);
    assert!(out.is_empty());
}

#[test]
fn sort_by_pid_ascending() {
    let raw = vec![
        proc_entry(30, "c", 0, 0),
        proc_entry(10, "a", 0, 0),
        proc_entry(20, "b", 0, 0),
    ];
    let out = build_snapshot(raw, "", SortColumn::Pid, true, 100);
    assert_eq!(pids(&out), vec![10, 20, 30]);
}

#[test]
fn sort_by_name_lexicographic() {
    let raw = vec![
        proc_entry(1, "cargo", 0, 0),
        proc_entry(2, "Bash", 0, 0),
        proc_entry(3, "awk", 0, 0),
    ];
    let out = build_snapshot(raw, "", SortColumn::Name, true, 100);
    // Code-point order: upper case letters sort before lower case ones.
    assert_eq!(pids(&out), vec![2, 3, 1]);
}

#[test]
fn sort_by_cpu_descending() {
    let raw = vec![
        proc_entry(1, "a", 1000, 0),
        proc_entry(2, "b", 9000, 0),
        proc_entry(3, "c", 5000, 0),
    ];
    let out = build_snapshot(raw, "", SortColumn::Cpu, false, 100);
    assert_eq!(pids(&out), vec![2, 3, 1]);
}

#[test]
fn sort_by_memory_both_directions() {
    let raw = vec![
        proc_entry(1, "a", 0, 500),
        proc_entry(2, "b", 0, 100),
        proc_entry(3, "c", 0, 900),
    ];
    let asc = build_snapshot(
        vec![
            proc_entry(1, "a", 0, 500),
            proc_entry(2, "b", 0, 100),
            proc_entry(3, "c", 0, 900),
        ],
        "",
        SortColumn::Memory,
        true,
        100,
    );
    let desc = build_snapshot(raw, "", SortColumn::Memory, false, 100);
    assert_eq!(pids(&asc), vec![2, 1, 3]);
    assert_eq!(pids(&desc), vec![3, 1, 2]);
}

#[test]
fn reversing_direction_reverses_exactly() {
    // Ties included: descending output must be the exact reverse of the
    // ascending output, not merely monotone.
    let mk = || {
        vec![
            proc_entry(1, "a", 5000, 0),
            proc_entry(2, "b", 1000, 0),
            proc_entry(3, "c", 5000, 0),
            proc_entry(4, "d", 9000, 0),
        ]
    };
    let asc = build_snapshot(mk(), "", SortColumn::Cpu, true, 100);
    let desc = build_snapshot(mk(), "", SortColumn::Cpu, false, 100);
    let mut reversed = pids(&desc);
    reversed.reverse();
    assert_eq!(pids(&asc), reversed);
}

#[test]
fn truncation_keeps_head_of_sorted_sequence() {
    let raw = vec![
        proc_entry(1, "a", 100, 0),
        proc_entry(2, "b", 400, 0),
        proc_entry(3, "c", 300, 0),
        proc_entry(4, "d", 200, 0),
    ];
    let out = build_snapshot(raw, "", SortColumn::Cpu, false, 2);
    assert_eq!(out.len(), 2);
    assert_eq!(pids(&out), vec![2, 3]);
}

#[test]
fn truncation_no_op_when_under_limit() {
    let raw = vec![proc_entry(1, "a", 100, 0), proc_entry(2, "b", 400, 0)];
    let out = build_snapshot(raw, "", SortColumn::Cpu, true, 5);
    assert_eq!(out.len(), 2);
}

#[test]
fn filter_applies_before_truncation() {
    let raw = vec![
        proc_entry(1, "chrome", 100, 0),
        proc_entry(2, "bash", 900, 0),
        proc_entry(3, "chromium", 500, 0),
        proc_entry(4, "chrome-helper", 700, 0),
    ];
    let out = build_snapshot(raw, "chrome", SortColumn::Cpu, false, 2);
    assert_eq!(pids(&out), vec![4, 1]);
}
