use lbs::state::{add_target, AppState, TargetProcess, DEFAULT_LIMIT_TENTHS};

fn keys(s: &AppState) -> Vec<(u32, String, u32, bool)> {
    s.targets
        .iter()
        .map(|t| (t.pid, t.name.clone(), t.limit_tenths, t.is_active))
        .collect()
}

fn target(pid: u32, name: &str, limit_tenths: u32, is_active: bool) -> TargetProcess {
    TargetProcess { pid, name: name.to_string(), limit_tenths, is_active }
}

#[test]
fn default_state_has_the_documented_settings() {
    let s = AppState::default();
    assert!(s.targets.is_empty());
    assert_eq!(s.awake_cycle_ms, 100);
    assert!(!s.auto_start);
    assert!(s.unlimit_at_focus);
    assert!(s.close_to_tray);
    assert!(!s.allow_limit_99);
    assert!(s.check_updates);
    assert!(s.last_run_version.is_none());
    assert!(!s.desktop_installed);
    assert!(!s.shown_warning);
    assert!(s.available_processes.is_empty());
}

#[test]
fn add_target_adds_an_active_target_once() {
    let mut s = AppState::default();
    assert!(add_target(&mut s, 42, "firefox", 330));
    assert!(!add_target(&mut s, 42, "firefox", 500));
    assert_eq!(keys(&s), vec![(42, "firefox".to_string(), 330, true)]);
}

#[test]
fn add_target_same_pid_other_name_is_another_target() {
    let mut s = AppState::default();
    assert!(add_target(&mut s, 42, "firefox", 330));
    assert!(add_target(&mut s, 42, "chrome", 330));
    assert!(add_target(&mut s, 43, "firefox", 100));
    assert_eq!(s.targets.len(), 3);
}

#[test]
fn add_target_keeps_the_settings() {
    let mut s = AppState::default();
    s.awake_cycle_ms = 250;
    s.unlimit_at_focus = false;
    add_target(&mut s, 1, "a", 10);
    assert_eq!(s.awake_cycle_ms, 250);
    assert!(!s.unlimit_at_focus);
}

#[test]
fn remove_target_removes_only_the_matching_target() {
    let mut s = AppState::default();
    s.targets = vec![target(1, "a", 10, true), target(2, "b", 20, false), target(1, "c", 30, true)];
    s.remove_target(1, &"a".to_string());
    assert_eq!(
        keys(&s),
        vec![(2, "b".to_string(), 20, false), (1, "c".to_string(), 30, true)]
    );
    s.remove_target(9, &"zz".to_string());
    assert_eq!(s.targets.len(), 2);
}

#[test]
fn remove_undoes_add() {
    let mut s = AppState::default();
    s.targets = vec![target(2, "b", 20, false)];
    add_target(&mut s, 7, "x", 330);
    s.remove_target(7, &"x".to_string());
    assert_eq!(keys(&s), vec![(2, "b".to_string(), 20, false)]);
}

#[test]
fn set_target_active_and_limit_change_only_that_target() {
    let mut s = AppState::default();
    s.targets = vec![target(1, "a", 10, true), target(2, "b", 20, true)];
    s.set_target_active(2, &"b".to_string(), false);
    s.set_target_limit(1, &"a".to_string(), 999);
    assert_eq!(
        keys(&s),
        vec![(1, "a".to_string(), 999, true), (2, "b".to_string(), 20, false)]
    );
    s.set_target_active(3, &"c".to_string(), false);
    assert_eq!(s.targets.len(), 2);
}

#[test]
fn clear_targets_empties_the_list() {
    let mut s = AppState::default();
    s.targets = vec![target(1, "a", 10, true)];
    s.clear_targets();
    assert!(s.targets.is_empty());
}

#[test]
fn limit_all_replaces_targets_of_the_name() {
    let mut s = AppState::default();
    s.targets = vec![target(5, "foo", 10, false), target(6, "bar", 20, true), target(7, "foo", 30, true)];
    s.limit_all(&"foo".to_string());
    assert_eq!(
        keys(&s),
        vec![(6, "bar".to_string(), 20, true), (0, "foo".to_string(), DEFAULT_LIMIT_TENTHS, true)]
    );
    assert_eq!(DEFAULT_LIMIT_TENTHS, 330);
}

#[test]
fn settings_setters_change_one_field() {
    let mut s = AppState::default();
    add_target(&mut s, 7, "game", 250);
    s.set_unlimit_at_focus(false);
    s.set_close_to_tray(false);
    s.set_allow_limit_99(true);
    s.set_check_updates(false);
    s.set_awake_cycle_ms(250);
    s.mark_desktop_handled();
    s.auto_start = true;
    s.mark_uninstalled();
    assert!(!s.unlimit_at_focus);
    assert!(!s.close_to_tray);
    assert!(s.allow_limit_99);
    assert!(!s.check_updates);
    assert_eq!(s.awake_cycle_ms, 250);
    assert!(s.desktop_installed);
    assert!(!s.auto_start);
    assert!(!s.shown_warning);
    assert_eq!(s.last_run_version, None);
    assert_eq!(keys(&s), vec![(7, "game".to_string(), 250, true)]);
}
