use lbs::focus::{
    find_focused, focus_backend, focus_start, focus_step, kde_window_path, kde_window_pid,
    query_command, x11_window_id, x11_window_pid, FocusBackend, FocusNext, FocusQuery, FocusReply,
    FocusedWindow, WindowNode,
};

fn leaf(focused: Option<bool>, pid: Option<u64>) -> WindowNode {
    WindowNode { focused, pid, nodes: None, floating_nodes: None }
}

#[test]
fn find_focused_walks_tiled_then_floating_nodes() {
    let tree = WindowNode {
        focused: Some(false),
        pid: None,
        nodes: Some(vec![leaf(None, Some(5)), leaf(Some(false), Some(6))]),
        floating_nodes: Some(vec![leaf(Some(true), Some(77))]),
    };
    assert_eq!(find_focused(&tree), 77);
    let tree2 = WindowNode {
        focused: None,
        pid: Some(1),
        nodes: Some(vec![WindowNode {
            focused: None,
            pid: None,
            nodes: Some(vec![leaf(Some(true), Some(33))]),
            floating_nodes: None,
        }]),
        floating_nodes: Some(vec![leaf(Some(true), Some(44))]),
    };
    assert_eq!(find_focused(&tree2), 33);
}

#[test]
fn find_focused_edge_cases() {
    assert_eq!(find_focused(&leaf(Some(true), None)), 0);
    assert_eq!(find_focused(&leaf(None, Some(9))), 0);
    // a pid above 32 bits is cut to its low 32 bits
    assert_eq!(find_focused(&leaf(Some(true), Some((1u64 << 32) + 7))), 7);
}

#[test]
fn kde_reply_parsing() {
    let out = "method return time=1.0 sender=:1.2 -> destination=:1.9 serial=7 reply_serial=2\n   object path \"/org/kde/win/3\"\n";
    assert_eq!(kde_window_path(out), None);
    let out = "method return\n   objpath \"/org/kde/KWin/Window_12\"\n";
    assert_eq!(kde_window_path(out), Some("/org/kde/KWin/Window_12".to_string()));
    let pid_out = "method return time=1\n   variant          uint32 4242\n";
    assert_eq!(kde_window_pid(pid_out), 4242);
    assert_eq!(kde_window_pid("no marker here"), 0);
    assert_eq!(kde_window_pid("variant          uint32 notanumber"), 0);
}

#[test]
fn x11_reply_parsing() {
    let out = "_NET_ACTIVE_WINDOW(WINDOW): window id # 0x3a00007, 0x0\n";
    assert_eq!(x11_window_id(out), Some("0x3a00007".to_string()));
    assert_eq!(x11_window_id("_NET_ACTIVE_WINDOW(WINDOW): window id # , 0x0"), None);
    assert_eq!(x11_window_id("_NET_ACTIVE_WINDOW:  not found."), None);
    assert_eq!(x11_window_pid("_NET_WM_PID(CARDINAL) = 1234\n"), 1234);
    assert_eq!(x11_window_pid("_NET_WM_PID:  not found.\n"), 0);
    assert_eq!(x11_window_pid("a = 5 = 6"), 5);
}

#[test]
fn backend_choice_compares_in_lower_case() {
    assert!(matches!(focus_backend(true, true, "KDE", "wayland"), FocusBackend::Hyprland));
    assert!(matches!(focus_backend(false, true, "KDE", "wayland"), FocusBackend::Sway));
    assert!(matches!(focus_backend(false, false, "KDE", "Wayland"), FocusBackend::KdeWayland));
    assert!(matches!(focus_backend(false, false, "plasma:kde", "wayland"), FocusBackend::KdeWayland));
    assert!(matches!(focus_backend(false, false, "KDE", "x11"), FocusBackend::Other));
    assert!(matches!(focus_backend(false, false, "GNOME", "wayland"), FocusBackend::Other));
}

fn ask(n: FocusNext) -> FocusQuery {
    match n {
        FocusNext::Ask(q) => q,
        FocusNext::Found(p) => panic!("found {p}"),
    }
}

#[test]
fn focus_search_falls_back_to_x11() {
    let q = ask(focus_start(&FocusBackend::Hyprland));
    assert!(matches!(q, FocusQuery::HyprlandActiveWindow));
    assert!(matches!(focus_step(&q, FocusReply::HyprlandPid(Some(321))), FocusNext::Found(321)));
    let q2 = ask(focus_step(&q, FocusReply::HyprlandPid(None)));
    assert!(matches!(q2, FocusQuery::X11ActiveWindow));
    let q3 = ask(focus_step(&q2, FocusReply::Output(b"_NET_ACTIVE_WINDOW(WINDOW): window id # 0x42\n".to_vec())));
    match &q3 {
        FocusQuery::X11WindowPid { window_id } => assert_eq!(window_id, "0x42"),
        _ => panic!("expected the pid question"),
    }
    assert!(matches!(focus_step(&q3, FocusReply::Output(b"_NET_WM_PID(CARDINAL) = 99\n".to_vec())), FocusNext::Found(99)));
    assert!(matches!(focus_step(&q3, FocusReply::Failed), FocusNext::Found(0)));
}

#[test]
fn focus_search_through_kwin() {
    let q = ask(focus_start(&FocusBackend::KdeWayland));
    let q2 = ask(focus_step(&q, FocusReply::Output(b"objpath \"/win/7\"".to_vec())));
    match &q2 {
        FocusQuery::KdeWindowPid { object_path } => assert_eq!(object_path, "/win/7"),
        _ => panic!("expected the KWin pid question"),
    }
    assert_eq!(
        query_command(&q2),
        vec![
            "dbus-send",
            "--session",
            "--print-reply",
            "--dest=org.kde.KWin",
            "/win/7",
            "org.freedesktop.DBus.Properties.Get",
            "string:org.kde.KWin.Window",
            "string:pid"
        ]
    );
    assert!(matches!(
        focus_step(&q2, FocusReply::Output(b"variant          uint32 555".to_vec())),
        FocusNext::Found(555)
    ));
    assert!(matches!(ask(focus_step(&q2, FocusReply::Failed)), FocusQuery::X11ActiveWindow));
}

#[test]
fn focus_search_through_sway() {
    let q = ask(focus_start(&FocusBackend::Sway));
    assert_eq!(query_command(&q), vec!["swaymsg", "-t", "get_tree"]);
    let tree = WindowNode { focused: None, pid: None, nodes: Some(vec![leaf(Some(true), Some(8))]), floating_nodes: None };
    assert!(matches!(focus_step(&q, FocusReply::SwayTree(tree)), FocusNext::Found(8)));
    assert!(matches!(ask(focus_step(&q, FocusReply::Failed)), FocusQuery::X11ActiveWindow));
}

#[test]
fn query_commands() {
    assert_eq!(query_command(&FocusQuery::HyprlandActiveWindow), vec!["hyprctl", "activewindow", "-j"]);
    assert_eq!(query_command(&FocusQuery::X11ActiveWindow), vec!["xprop", "-root", "_NET_ACTIVE_WINDOW"]);
    assert_eq!(
        query_command(&FocusQuery::X11WindowPid { window_id: "0x1".to_string() }),
        vec!["xprop", "-id", "0x1", "_NET_WM_PID"]
    );
    assert_eq!(
        query_command(&FocusQuery::KdeActiveWindow),
        vec!["dbus-send", "--session", "--print-reply", "--dest=org.kde.KWin", "/KWin", "org.kde.KWin.activeWindow"]
    );
}

#[test]
fn observe_keeps_the_last_window() {
    let mut f = FocusedWindow::new();
    f.observe(0, Some("ignored"));
    assert_eq!((f.pid, f.name.as_str()), (0, ""));
    f.observe(12, Some("firefox\n"));
    assert_eq!((f.pid, f.name.as_str()), (12, "firefox"));
    f.observe(13, None);
    assert_eq!((f.pid, f.name.as_str()), (13, "firefox"));
}
