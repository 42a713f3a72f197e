use lbs::procs::{ProcessEntry, ProcessGroup};
use lbs::ui::{
    card_ticks, clean_name, desktop_file_matches, desktop_icons, desktop_search_dirs, icon_candidates,
    is_self_process, item_style, limit_label, limit_range, limit_slider_label, pid_label, picker_rows,
    start_page, status_badge, version_check, version_message, ItemStatus, PickerRow, StartPage,
    desktop_item, latest_version, version_line, version_pending, VersionAction,
    CURRENT_VERSION, DEFAULT_ICON,
};

fn group(name: &str, entries: &[(u32, u64, bool)]) -> ProcessGroup {
    ProcessGroup {
        name: name.to_string(),
        entries: entries.iter().map(|&(pid, cpu_ticks, is_kernel)| ProcessEntry { pid, cpu_ticks, is_kernel }).collect(),
        total_ticks: entries.iter().map(|e| e.1 as u128).sum(),
    }
}

#[test]
fn badge_and_start_page() {
    assert_eq!(status_badge(true), ("ACTIVE", "active"));
    assert_eq!(status_badge(false), ("IDLE", "inactive"));
    assert!(matches!(start_page(true, false, false, false, None), StartPage::Desktop));
    assert!(matches!(start_page(false, false, false, false, None), StartPage::Main));
    assert!(matches!(start_page(true, true, false, false, Some("0.1.0")), StartPage::Main));
    assert!(matches!(start_page(true, false, true, false, Some("0.0.9")), StartPage::Main));
    assert!(matches!(start_page(true, false, false, true, None), StartPage::Main));
}

#[test]
fn labels() {
    assert_eq!(pid_label(0), "PID: ALL");
    assert_eq!(pid_label(4321), "PID: 4321");
    assert_eq!(limit_label(330), "-33%");
    assert_eq!(limit_label(335), "-33.5%");
    assert_eq!(limit_label(5), "-0.5%");
    assert_eq!(limit_label(999), "-99.9%");
    assert_eq!(limit_slider_label(330, true), "-33.0%");
    assert_eq!(limit_slider_label(335, false), "-34%");
    assert_eq!(limit_slider_label(334, false), "-33%");
    assert_eq!(limit_range(true), (999, 1));
    assert_eq!(limit_range(false), (990, 10));
}

#[test]
fn compat_item_styles() {
    assert_eq!(item_style(&ItemStatus::Good), ("ok", "emblem-ok-symbolic"));
    assert_eq!(item_style(&ItemStatus::Bad), ("error", "dialog-error-symbolic"));
    assert_eq!(item_style(&ItemStatus::Warning), ("warning-item", "dialog-warning-symbolic"));
    assert_eq!(item_style(&ItemStatus::Info), ("info-item", "dialog-information-symbolic"));
}

#[test]
fn update_check() {
    assert_eq!(CURRENT_VERSION, "0.1.0");
    assert_eq!(version_check(true, b"0.1.0\n"), Ok((true, "0.1.0".to_string())));
    assert_eq!(version_check(true, b" 0.2.0 "), Ok((false, "0.2.0".to_string())));
    let err = Err("Failed to check for updates".to_string());
    assert_eq!(version_check(true, b"404: Not Found"), err);
    assert_eq!(version_check(true, b"  \n"), err);
    assert_eq!(version_check(false, b"0.1.0"), err);
    let (text, button, status) = version_message(true, "0.1.0");
    assert_eq!(text, "Current: v0.1.0. You have the latest version.");
    assert_eq!(button, "CHECK");
    assert!(matches!(status, ItemStatus::Good));
    let (text, button, status) = version_message(false, "0.2.0");
    assert_eq!(text, "Update available: v0.2.0. Visit GitHub to download.");
    assert_eq!(button, "UPDATE");
    assert!(matches!(status, ItemStatus::Info));
}

#[test]
fn cards_read_their_own_labels() {
    let gs = vec![group("a", &[(10, 3, false), (11, 4, false)]), group("b", &[(11, 9, false)])];
    assert_eq!(card_ticks(&gs, "a", &pid_label(0)), 7);
    assert_eq!(card_ticks(&gs, "b", &pid_label(0)), 9);
    assert_eq!(card_ticks(&gs, "a", &pid_label(11)), 4);
    assert_eq!(card_ticks(&gs, "z", &pid_label(0)), 0);
    assert_eq!(card_ticks(&gs, "a", &pid_label(99)), 0);
    assert_eq!(card_ticks(&gs, "a", "PID: x"), 0);
}

#[test]
fn picker_lists_matching_user_groups() {
    assert!(is_self_process("LBS"));
    assert!(is_self_process("my-lbs-helper"));
    assert!(!is_self_process("firefox"));
    let gs = vec![
        group("Firefox", &[(2000, 1, false), (2001, 1, false)]),
        group("lbs", &[(2100, 0, false)]),
        group("kworker", &[(3000, 0, true)]),
        group("bash", &[(2200, 0, false)]),
        group("init", &[(1, 0, false)]),
    ];
    assert_eq!(picker_rows(&gs, "", false), vec![PickerRow::Group(0), PickerRow::Single(3)]);
    assert_eq!(
        picker_rows(&gs, "", true),
        vec![PickerRow::Group(0), PickerRow::Single(2), PickerRow::Single(3), PickerRow::Single(4)]
    );
    assert_eq!(picker_rows(&gs, "FIRE", false), vec![PickerRow::Group(0)]);
    assert!(picker_rows(&gs, "zzz", true).is_empty());
}

#[test]
fn icon_lookup_names() {
    assert_eq!(DEFAULT_ICON, "application-x-executable-symbolic");
    assert_eq!(icon_candidates("   "), None);
    assert_eq!(
        icon_candidates("  Firefox-bin \n"),
        Some(vec!["Firefox-bin".to_string(), "firefox-bin".to_string(), "firefox".to_string()])
    );
    assert_eq!(clean_name("Code.real-wrapper"), "code");
    assert!(desktop_file_matches("Org.Mozilla.Firefox.desktop", "firefox"));
    assert!(!desktop_file_matches("firefox.desktop.bak", "firefox"));
    assert_eq!(
        desktop_icons("[Desktop Entry]\nName=X\nIcon= firefox \r\nIcon=/p/x.png\nNoIcon=y\n"),
        vec!["firefox".to_string(), "/p/x.png".to_string()]
    );
    assert_eq!(
        desktop_search_dirs("/home/u"),
        vec![
            "/usr/share/applications".to_string(),
            "/usr/local/share/applications".to_string(),
            "/var/lib/flatpak/exports/share/applications".to_string(),
            "/home/u/.local/share/applications".to_string(),
        ]
    );
}

#[test]
fn version_line_for_each_check_result() {
    let (text, button, status, action) = version_line(&Ok((true, "0.1.0".to_string())));
    assert_eq!(text, "Current: v0.1.0. You have the latest version.");
    assert_eq!((button, status, action), ("CHECK", ItemStatus::Good, VersionAction::Recheck));
    let (text, button, status, action) = version_line(&Ok((false, "0.3.1".to_string())));
    assert_eq!(text, "Update available: v0.3.1. Visit GitHub to download.");
    assert_eq!((button, status, action), ("UPDATE", ItemStatus::Info, VersionAction::OpenReleases));
    let (text, button, status, action) = version_line(&Err("Failed to check for updates".to_string()));
    assert_eq!(text, "Failed to check for updates");
    assert_eq!((button, status, action), ("RETRY", ItemStatus::Warning, VersionAction::Recheck));
    let (text, status) = version_pending();
    assert_eq!((text.as_str(), status), ("Checking for updates...", ItemStatus::Good));
}

#[test]
fn latest_version_reads_text() {
    assert_eq!(latest_version(true, "\t0.1.0\n"), Ok((true, "0.1.0".to_string())));
    assert_eq!(latest_version(true, "0.9"), Ok((false, "0.9".to_string())));
    let err = Err("Failed to check for updates".to_string());
    assert_eq!(latest_version(true, "Not Found"), err);
    assert_eq!(latest_version(false, "0.9"), err);
    assert_eq!(version_check(true, &[0x30, 0xff]), Ok((false, "0\u{fffd}".to_string())));
}

#[test]
fn desktop_item_of_settings_page() {
    assert_eq!(desktop_item(true, false), None);
    assert_eq!(desktop_item(true, true), None);
    assert_eq!(desktop_item(false, true), Some((ItemStatus::Good, false)));
    assert_eq!(desktop_item(false, false), Some((ItemStatus::Warning, true)));
}
