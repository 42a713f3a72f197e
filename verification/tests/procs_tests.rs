use lbs::procs::{
    cpu_ticks_for, cpu_usage, list_grouped_processes, sample_map, stat_cpu_ticks, ProcessGroup,
    ScannedProcess,
};

fn scanned(pid: u32, name: &str, cpu_ticks: u64, is_kernel: bool) -> ScannedProcess {
    ScannedProcess { pid, name: name.to_string(), cpu_ticks, is_kernel }
}

fn summary(gs: &[ProcessGroup]) -> Vec<(String, Vec<u32>, u128)> {
    gs.iter()
        .map(|g| (g.name.clone(), g.entries.iter().map(|e| e.pid).collect(), g.total_ticks))
        .collect()
}

#[test]
fn processes_are_grouped_by_name_in_scan_order() {
    let scan = vec![
        scanned(1200, "firefox", 4, false),
        scanned(1300, "bash", 1, false),
        scanned(1201, "firefox", 6, false),
    ];
    let gs = list_grouped_processes(&scan);
    assert_eq!(
        summary(&gs),
        vec![
            ("firefox".to_string(), vec![1200, 1201], 10),
            ("bash".to_string(), vec![1300], 1),
        ]
    );
    assert_eq!(gs[0].entries[1].cpu_ticks, 6);
}

#[test]
fn user_groups_come_before_system_groups_busiest_first() {
    let scan = vec![
        scanned(1, "systemd", 50, false),
        scanned(2000, "idle", 0, false),
        scanned(2001, "busy", 9, false),
        scanned(20, "kthreadd", 1, true),
        scanned(2002, "busy2", 5, false),
    ];
    let gs = list_grouped_processes(&scan);
    let names: Vec<&str> = gs.iter().map(|g| g.name.as_str()).collect();
    assert_eq!(names, vec!["busy", "busy2", "idle", "systemd", "kthreadd"]);
}

#[test]
fn empty_scan_gives_no_groups() {
    assert!(list_grouped_processes(&Vec::new()).is_empty());
}

#[test]
fn stat_line_gives_user_plus_system_time() {
    let line = "1234 (bash) S 1 1234 1234 34816 1234 4194304 1000 0 0 0 17 3 0 0 20 0 1 0 100 1000 100";
    assert_eq!(stat_cpu_ticks(line), Some(20));
    assert_eq!(stat_cpu_ticks("1 (a) S 1 2 3 4 5 6 7 8 9 10 11"), None);
    let odd = "1 (a) S 1 2 3 4 5 6 7 8 9 10 x 4 end";
    assert_eq!(stat_cpu_ticks(odd), Some(4));
    let big = "1 (a) S 1 2 3 4 5 6 7 8 9 10 18446744073709551615 2 end";
    assert_eq!(stat_cpu_ticks(big), Some(1));
}

#[test]
fn usage_is_the_rise_between_samples() {
    let first = sample_map(&vec![(1, 100), (2, 50), (1, 110)]);
    assert_eq!(first.get(&1), Some(&110));
    let usage = cpu_usage(&first, &vec![(1, 130), (2, 40), (3, 9)]);
    assert_eq!(usage.get(&1), Some(&20));
    assert_eq!(usage.get(&2), Some(&0));
    assert_eq!(usage.get(&3), None);
    assert_eq!(cpu_ticks_for(&usage, 1), 20);
    assert_eq!(cpu_ticks_for(&usage, 3), 0);
}
