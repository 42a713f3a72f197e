use lbs::paths::{
    components, config_dir_path, config_file_path, desktop_entry, install_layout, installed_desktop_file,
    is_system_install, join, path_starts_with, same_path, should_copy_binary, uninstall_plan,
};

#[test]
fn path_components() {
    assert_eq!(components("/a//b/./c/"), vec!["/", "a", "b", "c"]);
    assert_eq!(components("./a/../b"), vec![".", "a", "..", "b"]);
    assert_eq!(components("a/./b"), vec!["a", "b"]);
    assert_eq!(components(".hidden/x"), vec![".hidden", "x"]);
    assert!(components("").is_empty());
}

#[test]
fn paths_compare_by_component() {
    assert!(same_path("/home/u/.local/bin/lbs", "/home/u/.local//bin/./lbs"));
    assert!(!same_path("/home/u/bin/lbs", "home/u/bin/lbs"));
    assert!(path_starts_with("/usr/bin/lbs", "/usr/bin"));
    assert!(!path_starts_with("/usr/binx/lbs", "/usr/bin"));
}

#[test]
fn system_install_means_usr_bin() {
    assert!(is_system_install(Some("/usr/bin/lbs")));
    assert!(is_system_install(Some("/usr/local/bin/lbs")));
    assert!(!is_system_install(Some("/usr/binary/lbs")));
    assert!(!is_system_install(Some("/home/u/.local/bin/lbs")));
    assert!(!is_system_install(None));
}

#[test]
fn joining() {
    assert_eq!(join("/home/u", ".local/bin"), "/home/u/.local/bin");
    assert_eq!(join("/home/u/", "x"), "/home/u/x");
    assert_eq!(join("", "x"), "x");
    assert_eq!(join("/a", "/b"), "/b");
}

#[test]
fn install_and_config_locations() {
    let l = install_layout("/home/u", "/home/u/.local/share");
    assert_eq!(l.icon_theme_dir, "/home/u/.local/share/icons/hicolor");
    assert_eq!(l.icons_dir, "/home/u/.local/share/icons/hicolor/256x256/apps");
    assert_eq!(l.icon_file, "/home/u/.local/share/icons/hicolor/256x256/apps/dev.agzes.lbs.png");
    assert_eq!(l.bin_dir, "/home/u/.local/bin");
    assert_eq!(l.target_binary, "/home/u/.local/bin/lbs");
    assert_eq!(l.applications_dir, "/home/u/.local/share/applications");
    assert_eq!(l.desktop_file, "/home/u/.local/share/applications/dev.agzes.lbs.desktop");
    assert_eq!(installed_desktop_file("/d"), "/d/applications/dev.agzes.lbs.desktop");
    assert_eq!(config_dir_path("/c"), "/c/lbs");
    assert_eq!(config_file_path("/c"), "/c/lbs/config.json");
}

#[test]
fn desktop_entry_text() {
    assert_eq!(
        desktop_entry("/h/.local/bin/lbs", "/i/lbs.png"),
        "[Desktop Entry]\nName=Linux Battle Shaper\nComment=CPU Limiter with universal focus support\nExec=/h/.local/bin/lbs\nIcon=/i/lbs.png\nTerminal=false\nType=Application\nCategories=Utility;System;\nStartupNotify=true\n"
    );
}

#[test]
fn binary_copy_decision() {
    assert!(should_copy_binary(false, Some(1), Some(1)));
    assert!(!should_copy_binary(true, Some(10), Some(10)));
    assert!(should_copy_binary(true, Some(10), Some(11)));
    assert!(should_copy_binary(true, None, Some(11)));
}

#[test]
fn uninstall_removes_the_known_files() {
    assert!(uninstall_plan(None, Some("/d"), None).is_none());
    assert!(uninstall_plan(Some("/h"), None, Some("/c")).is_none());
    let plan = uninstall_plan(Some("/h"), Some("/d"), Some("/c")).unwrap();
    let got: Vec<(String, bool)> = plan.into_iter().map(|r| (r.path, r.is_dir)).collect();
    assert_eq!(
        got,
        vec![
            ("/h/.local/bin/lbs".to_string(), false),
            ("/d/applications/dev.agzes.lbs.desktop".to_string(), false),
            ("/d/icons/hicolor/256x256/apps/dev.agzes.lbs.png".to_string(), false),
            ("/c/environment.d/10-lbs.conf".to_string(), false),
            ("/c/lbs".to_string(), true),
        ]
    );
    assert_eq!(uninstall_plan(Some("/h"), Some("/d"), None).unwrap().len(), 3);
}
