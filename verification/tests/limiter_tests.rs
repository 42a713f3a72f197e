use lbs::focus::FocusedWindow;
use lbs::limiter::{
    duty_cycle, limiter_after_probe, limiter_check, limiter_requests, LimiterCheck, LimiterRegistry,
    LimiterStep,
};
use lbs::procs::{ProcessEntry, ProcessGroup};
use lbs::state::{AppState, TargetProcess};

fn target(pid: u32, name: &str, limit_tenths: u32, is_active: bool) -> TargetProcess {
    TargetProcess { pid, name: name.to_string(), limit_tenths, is_active }
}

fn focus(pid: u32, name: &str) -> FocusedWindow {
    FocusedWindow { pid, name: name.to_string() }
}

#[test]
fn registry_claims_a_pid_once_until_released() {
    let mut r = LimiterRegistry::new();
    assert!(r.try_start(10));
    assert!(!r.try_start(10));
    assert!(r.is_running(10));
    assert!(r.try_start(11));
    let mut running = r.running();
    running.sort();
    assert_eq!(running, vec![10, 11]);
    r.finish(10);
    assert!(!r.is_running(10));
    assert!(r.try_start(10));
}

#[test]
fn limiter_releases_a_process_without_target() {
    let mut s = AppState::default();
    s.targets = vec![target(5, "other", 330, true)];
    assert!(matches!(limiter_check(&s, &focus(0, ""), 7, &"x".to_string()), LimiterCheck::Release));
}

#[test]
fn limiter_probes_an_active_unfocused_target() {
    let mut s = AppState::default();
    s.awake_cycle_ms = 200;
    s.targets = vec![target(7, "x", 500, true)];
    match limiter_check(&s, &focus(1, "y"), 7, &"x".to_string()) {
        LimiterCheck::Probe { limit_tenths, awake_cycle_ms } => {
            assert_eq!(limit_tenths, 500);
            assert_eq!(awake_cycle_ms, 200);
        }
        _ => panic!("expected a probe"),
    }
}

#[test]
fn limiter_follows_a_name_wide_target() {
    let mut s = AppState::default();
    s.targets = vec![target(0, "x", 250, true)];
    assert!(matches!(
        limiter_check(&s, &focus(1, "y"), 99, &"x".to_string()),
        LimiterCheck::Probe { limit_tenths: 250, .. }
    ));
}

#[test]
fn limiter_resumes_a_focused_or_paused_target() {
    let mut s = AppState::default();
    s.targets = vec![target(7, "x", 500, true)];
    assert!(matches!(limiter_check(&s, &focus(7, ""), 7, &"x".to_string()), LimiterCheck::Resume));
    assert!(matches!(limiter_check(&s, &focus(3, "x"), 7, &"x".to_string()), LimiterCheck::Resume));
    s.unlimit_at_focus = false;
    assert!(matches!(limiter_check(&s, &focus(7, "x"), 7, &"x".to_string()), LimiterCheck::Probe { .. }));
    s.targets = vec![target(7, "x", 500, false)];
    assert!(matches!(limiter_check(&s, &focus(0, ""), 7, &"x".to_string()), LimiterCheck::Resume));
}

#[test]
fn limiter_uses_the_first_covering_target() {
    let mut s = AppState::default();
    s.targets = vec![target(0, "x", 100, false), target(7, "x", 900, true)];
    assert!(matches!(limiter_check(&s, &focus(0, ""), 7, &"x".to_string()), LimiterCheck::Resume));
}

#[test]
fn after_probe_decides_the_cycle() {
    assert_eq!(limiter_after_probe(false, 330, 100), LimiterStep::Forget);
    assert_eq!(limiter_after_probe(true, 0, 100), LimiterStep::Resume);
    assert_eq!(
        limiter_after_probe(true, 330, 100),
        LimiterStep::Cycle { awake_us: 67_000, sleep_us: 33_000 }
    );
    assert_eq!(
        limiter_after_probe(true, 1500, 10),
        LimiterStep::Cycle { awake_us: 0, sleep_us: 15_000 }
    );
}

#[test]
fn duty_cycle_splits_the_cycle_by_the_limit() {
    assert_eq!(duty_cycle(100, 999), (100, 99_900));
    assert_eq!(duty_cycle(2, 1), (1_998, 2));
    assert_eq!(duty_cycle(400, 1000), (0, 400_000));
    assert_eq!(duty_cycle(0, 500), (0, 0));
    let (awake, sleep) = duty_cycle(123, 456);
    assert_eq!(awake + sleep, 123_000);
    assert_eq!(sleep * 1000, 123_000 * 456);
}

#[test]
fn scanner_requests_limiters_for_active_targets() {
    let groups = vec![
        ProcessGroup {
            name: "x".to_string(),
            entries: vec![
                ProcessEntry { pid: 11, cpu_ticks: 0, is_kernel: false },
                ProcessEntry { pid: 12, cpu_ticks: 0, is_kernel: false },
            ],
            total_ticks: 0,
        },
        ProcessGroup {
            name: "y".to_string(),
            entries: vec![ProcessEntry { pid: 20, cpu_ticks: 0, is_kernel: false }],
            total_ticks: 0,
        },
    ];
    let targets = vec![target(0, "x", 330, true), target(30, "z", 330, true), target(20, "y", 330, false)];
    let reqs = limiter_requests(&targets, &groups);
    assert_eq!(
        reqs,
        vec![(11, "x".to_string()), (12, "x".to_string()), (30, "z".to_string())]
    );
}
