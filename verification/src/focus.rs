use vstd::prelude::*;
use crate::text::{
    contains, lowercase, parse_u32, spec_contains, spec_parse_u32, spec_split_first,
    spec_split_second, spec_trim, split_first, split_second, text_from_bytes, to_lowercase, trim,
    utf8_lossy,
};

verus! {

/// The window that has the focus, as last seen: its pid and its process name.
pub struct FocusedWindow {
    pub pid: u32,
    pub name: String,
}

impl FocusedWindow {
    /// Nothing seen yet.
    pub fn new() -> (f: Self)
        ensures
            f.pid == 0,
            f.name@ == Seq::<char>::empty(),
    {
        FocusedWindow { pid: 0, name: String::new() }
    }
}

/// One node of the window tree that the sway compositor reports, holding the
/// fields the focus search reads as the JSON gave them: `focused` when it is a
/// boolean, `pid` when it is a non-negative integer, and the child lists when
/// they are arrays.
pub struct WindowNode {
    pub focused: Option<bool>,
    pub pid: Option<u64>,
    pub nodes: Option<Vec<WindowNode>>,
    pub floating_nodes: Option<Vec<WindowNode>>,
}

/// The pid of the focused window in this subtree, 0 when none is found: a
/// focused node gives its pid (cut to 32 bits, 0 when missing); otherwise the
/// first non-zero answer of the tiled children, then of the floating ones.
pub open spec fn spec_focused_pid(n: WindowNode) -> u32
    decreases n, 0nat,
{
    if n.focused == Some(true) {
        match n.pid {
            Some(p) => p as u32,
            None => 0,
        }
    } else {
        let tiled = match n.nodes {
            Some(v) => spec_first_focused(v@),
            None => 0,
        };
        if tiled != 0 {
            tiled
        } else {
            match n.floating_nodes {
                Some(v) => spec_first_focused(v@),
                None => 0,
            }
        }
    }
}

/// The first non-zero answer among these subtrees, in order, or 0.
pub open spec fn spec_first_focused(ns: Seq<WindowNode>) -> u32
    decreases ns, 1nat,
{
    if ns.len() == 0 {
        0
    } else {
        let p = spec_focused_pid(ns[0]);
        if p != 0 {
            p
        } else {
            spec_first_focused(ns.subrange(1, ns.len() as int))
        }
    }
}

/// Searches the window tree for the focused window's pid (0 when none).
pub fn find_focused(node: &WindowNode) -> (r: u32)
    ensures
        r == spec_focused_pid(*node),
    decreases *node, 0nat,
{
    if node.focused == Some(true) {
        return match node.pid {
            Some(p) => p as u32,
            None => 0,
        };
    }
    let tiled = match &node.nodes {
        Some(v) => {
            proof {
                assert(decreases_to!(*node => v@));
            }
            first_focused(v)
        },
        None => 0,
    };
    if tiled != 0 {
        return tiled;
    }
    match &node.floating_nodes {
        Some(v) => {
            proof {
                assert(decreases_to!(*node => v@));
            }
            first_focused(v)
        },
        None => 0,
    }
}

/// The first non-zero answer among these subtrees, in order, or 0.
fn first_focused(ns: &Vec<WindowNode>) -> (r: u32)
    ensures
        r == spec_first_focused(ns@),
    decreases ns@, 1nat,
{
    let n = ns.len();
    let mut i: usize = 0;
    proof {
        assert(ns@.subrange(0, n as int) =~= ns@);
    }
    while i < n
        invariant
            i <= n,
            n == ns@.len(),
            spec_first_focused(ns@) == spec_first_focused(ns@.subrange(i as int, n as int)),
        decreases n - i,
    {
        proof {
            assert(decreases_to!(ns@ => ns@[i as int]));
        }
        let p = find_focused(&ns[i]);
        proof {
            let rest = ns@.subrange(i as int, n as int);
            assert(rest[0] == ns@[i as int]);
            assert(rest.subrange(1, rest.len() as int) =~= ns@.subrange(i + 1, n as int));
        }
        if p != 0 {
            return p;
        }
        i = i + 1;
    }
    0
}

/// The window's object path in the reply of KWin's `activeWindow` (as
/// `out.split("objpath \"").nth(1)` cut at the next `"`).
pub open spec fn spec_kde_window_path(out: Seq<char>) -> Option<Seq<char>> {
    match spec_split_second(out, "objpath \""@) {
        Some(seg) => Some(spec_split_first(seg, "\""@)),
        None => None,
    }
}

/// The object path of the active window in KWin's reply.
pub fn kde_window_path(out: &str) -> (r: Option<String>)
    ensures
        match r {
            Some(p) => spec_kde_window_path(out@) == Some(p@),
            None => spec_kde_window_path(out@) is None,
        },
{
    proof {
        reveal_strlit("objpath \"");
        reveal_strlit("\"");
    }
    match split_second(out, "objpath \"") {
        Some(seg) => Some(split_first(seg.as_str(), "\"")),
        None => None,
    }
}

/// A pid written after `marker` in a reply, trimmed; 0 when there is no marker
/// or no number that fits.
pub open spec fn spec_pid_after(out: Seq<char>, marker: Seq<char>) -> u32 {
    match spec_split_second(out, marker) {
        Some(val) => match spec_parse_u32(spec_trim(val)) {
            Some(p) => p,
            None => 0,
        },
        None => 0,
    }
}

fn pid_after(out: &str, marker: &str) -> (r: u32)
    requires
        marker@.len() > 0,
    ensures
        r == spec_pid_after(out@, marker@),
{
    match split_second(out, marker) {
        Some(val) => {
            let t = trim(val.as_str());
            match parse_u32(t.as_str()) {
                Some(p) => p,
                None => 0,
            }
        },
        None => 0,
    }
}

/// The pid in the reply of KWin's `Properties.Get(..., "pid")`.
pub fn kde_window_pid(out: &str) -> (r: u32)
    ensures
        r == spec_pid_after(out@, "variant          uint32 "@),
{
    proof {
        reveal_strlit("variant          uint32 ");
    }
    pid_after(out, "variant          uint32 ")
}

/// The active window's id in `xprop -root _NET_ACTIVE_WINDOW`'s reply: the text
/// after "window id # " up to a comma, trimmed, when not empty.
pub open spec fn spec_x11_window_id(out: Seq<char>) -> Option<Seq<char>> {
    match spec_split_second(out, "window id # "@) {
        Some(part) => {
            let id = spec_trim(spec_split_first(part, ","@));
            if id.len() > 0 {
                Some(id)
            } else {
                None
            }
        },
        None => None,
    }
}

/// The id of the active X11 window.
pub fn x11_window_id(out: &str) -> (r: Option<String>)
    ensures
        match r {
            Some(id) => spec_x11_window_id(out@) == Some(id@),
            None => spec_x11_window_id(out@) is None,
        },
{
    proof {
        reveal_strlit("window id # ");
        reveal_strlit(",");
    }
    match split_second(out, "window id # ") {
        Some(part) => {
            let first = split_first(part.as_str(), ",");
            let id = trim(first.as_str());
            if id.unicode_len() > 0 {
                Some(id)
            } else {
                None
            }
        },
        None => None,
    }
}

/// The pid in `xprop -id <id> _NET_WM_PID`'s reply (after "= ").
pub fn x11_window_pid(out: &str) -> (r: u32)
    ensures
        r == spec_pid_after(out@, "= "@),
{
    proof {
        reveal_strlit("= ");
    }
    pid_after(out, "= ")
}

/// How the desktop is asked for the focused window.
pub enum FocusBackend {
    Hyprland,
    Sway,
    KdeWayland,
    /// Only the X11 way is tried.
    Other,
}

pub open spec fn spec_focus_backend(is_hyprland: bool, has_swaysock: bool, desktop: Seq<char>, session_type: Seq<char>) -> FocusBackend {
    if is_hyprland {
        FocusBackend::Hyprland
    } else if has_swaysock {
        FocusBackend::Sway
    } else if spec_contains(lowercase(desktop), "kde"@) && lowercase(session_type) == "wayland"@ {
        FocusBackend::KdeWayland
    } else {
        FocusBackend::Other
    }
}

/// Picks the backend: Hyprland when its instance signature is set, sway when
/// its socket is set, KWin when the desktop names KDE on a Wayland session
/// (both compared in lower case), else X11 only.
pub fn focus_backend(is_hyprland: bool, has_swaysock: bool, desktop: &str, session_type: &str) -> (r: FocusBackend)
    ensures
        r == spec_focus_backend(is_hyprland, has_swaysock, desktop@, session_type@),
{
    if is_hyprland {
        return FocusBackend::Hyprland;
    }
    if has_swaysock {
        return FocusBackend::Sway;
    }
    let d = to_lowercase(desktop);
    let t = to_lowercase(session_type);
    let wayland = "wayland".to_owned();
    if contains(d.as_str(), "kde") && t == wayland {
        FocusBackend::KdeWayland
    } else {
        FocusBackend::Other
    }
}

/// A question to the desktop about the focused window.
pub enum FocusQuery {
    HyprlandActiveWindow,
    SwayTree,
    KdeActiveWindow,
    KdeWindowPid { object_path: String },
    X11ActiveWindow,
    X11WindowPid { window_id: String },
}

/// What came back: nothing usable (the command failed, or its JSON did not
/// parse), the `pid` field of Hyprland's JSON, sway's window tree, or the raw
/// output of a command.
pub enum FocusReply {
    Failed,
    HyprlandPid(Option<u64>),
    SwayTree(WindowNode),
    Output(Vec<u8>),
}

/// The next move of the focus search.
pub enum FocusNext {
    Ask(FocusQuery),
    /// The search is over; 0 means no window was found.
    Found(u32),
}

/// The model of a query.
pub enum QueryModel {
    HyprlandActiveWindow,
    SwayTree,
    KdeActiveWindow,
    KdeWindowPid(Seq<char>),
    X11ActiveWindow,
    X11WindowPid(Seq<char>),
}

impl View for FocusQuery {
    type V = QueryModel;

    open spec fn view(&self) -> QueryModel {
        match self {
            FocusQuery::HyprlandActiveWindow => QueryModel::HyprlandActiveWindow,
            FocusQuery::SwayTree => QueryModel::SwayTree,
            FocusQuery::KdeActiveWindow => QueryModel::KdeActiveWindow,
            FocusQuery::KdeWindowPid { object_path } => QueryModel::KdeWindowPid(object_path@),
            FocusQuery::X11ActiveWindow => QueryModel::X11ActiveWindow,
            FocusQuery::X11WindowPid { window_id } => QueryModel::X11WindowPid(window_id@),
        }
    }
}

/// The model of the next move.
pub enum NextModel {
    Ask(QueryModel),
    Found(u32),
}

pub open spec fn next_model(n: FocusNext) -> NextModel {
    match n {
        FocusNext::Ask(q) => NextModel::Ask(q@),
        FocusNext::Found(p) => NextModel::Found(p),
    }
}

/// A pid from a desktop-specific backend ends the search, unless it is 0: then
/// the X11 way is tried.
pub open spec fn or_x11(pid: u32) -> NextModel {
    if pid != 0 {
        NextModel::Found(pid)
    } else {
        NextModel::Ask(QueryModel::X11ActiveWindow)
    }
}

pub open spec fn spec_focus_start(b: FocusBackend) -> NextModel {
    match b {
        FocusBackend::Hyprland => NextModel::Ask(QueryModel::HyprlandActiveWindow),
        FocusBackend::Sway => NextModel::Ask(QueryModel::SwayTree),
        FocusBackend::KdeWayland => NextModel::Ask(QueryModel::KdeActiveWindow),
        FocusBackend::Other => NextModel::Ask(QueryModel::X11ActiveWindow),
    }
}

/// The first question for a backend.
pub fn focus_start(b: &FocusBackend) -> (r: FocusNext)
    ensures
        next_model(r) == spec_focus_start(*b),
{
    match b {
        FocusBackend::Hyprland => FocusNext::Ask(FocusQuery::HyprlandActiveWindow),
        FocusBackend::Sway => FocusNext::Ask(FocusQuery::SwayTree),
        FocusBackend::KdeWayland => FocusNext::Ask(FocusQuery::KdeActiveWindow),
        FocusBackend::Other => FocusNext::Ask(FocusQuery::X11ActiveWindow),
    }
}

/// The next move after a reply to a question.
pub open spec fn spec_focus_step(q: QueryModel, reply: FocusReply) -> NextModel {
    match q {
        QueryModel::HyprlandActiveWindow => match reply {
            FocusReply::HyprlandPid(p) => or_x11(match p { Some(v) => v as u32, None => 0 }),
            _ => or_x11(0),
        },
        QueryModel::SwayTree => match reply {
            FocusReply::SwayTree(t) => or_x11(spec_focused_pid(t)),
            _ => or_x11(0),
        },
        QueryModel::KdeActiveWindow => match reply {
            FocusReply::Output(b) => match spec_kde_window_path(utf8_lossy(b@)) {
                Some(path) => NextModel::Ask(QueryModel::KdeWindowPid(path)),
                None => or_x11(0),
            },
            _ => or_x11(0),
        },
        QueryModel::KdeWindowPid(_) => match reply {
            FocusReply::Output(b) => or_x11(spec_pid_after(utf8_lossy(b@), "variant          uint32 "@)),
            _ => or_x11(0),
        },
        QueryModel::X11ActiveWindow => match reply {
            FocusReply::Output(b) => match spec_x11_window_id(utf8_lossy(b@)) {
                Some(id) => NextModel::Ask(QueryModel::X11WindowPid(id)),
                None => NextModel::Found(0),
            },
            _ => NextModel::Found(0),
        },
        QueryModel::X11WindowPid(_) => match reply {
            FocusReply::Output(b) => NextModel::Found(spec_pid_after(utf8_lossy(b@), "= "@)),
            _ => NextModel::Found(0),
        },
    }
}

/// How many questions are left at most after this one.
pub open spec fn query_rank(q: QueryModel) -> nat {
    match q {
        QueryModel::X11WindowPid(_) => 0,
        QueryModel::X11ActiveWindow => 1,
        QueryModel::KdeWindowPid(_) => 2,
        _ => 3,
    }
}

/// Takes the reply to a question and decides the next move. Each question
/// leads to one of a lower rank, so a search asks at most four questions; a
/// desktop-specific backend that finds no pid hands over to X11.
pub fn focus_step(query: &FocusQuery, reply: FocusReply) -> (r: FocusNext)
    ensures
        next_model(r) == spec_focus_step(query@, reply),
        match next_model(r) {
            NextModel::Ask(q2) => query_rank(q2) < query_rank(query@),
            NextModel::Found(_) => true,
        },
{
    match query {
        FocusQuery::HyprlandActiveWindow => {
            let pid = match reply {
                FocusReply::HyprlandPid(Some(v)) => v as u32,
                _ => 0,
            };
            if pid != 0 { FocusNext::Found(pid) } else { FocusNext::Ask(FocusQuery::X11ActiveWindow) }
        },
        FocusQuery::SwayTree => {
            let pid = match &reply {
                FocusReply::SwayTree(t) => find_focused(t),
                _ => 0,
            };
            if pid != 0 { FocusNext::Found(pid) } else { FocusNext::Ask(FocusQuery::X11ActiveWindow) }
        },
        FocusQuery::KdeActiveWindow => match &reply {
            FocusReply::Output(b) => {
                let out = text_from_bytes(b.as_slice());
                match kde_window_path(out.as_str()) {
                    Some(path) => FocusNext::Ask(FocusQuery::KdeWindowPid { object_path: path }),
                    None => FocusNext::Ask(FocusQuery::X11ActiveWindow),
                }
            },
            _ => FocusNext::Ask(FocusQuery::X11ActiveWindow),
        },
        FocusQuery::KdeWindowPid { .. } => {
            let pid = match &reply {
                FocusReply::Output(b) => {
                    let out = text_from_bytes(b.as_slice());
                    kde_window_pid(out.as_str())
                },
                _ => 0,
            };
            if pid != 0 { FocusNext::Found(pid) } else { FocusNext::Ask(FocusQuery::X11ActiveWindow) }
        },
        FocusQuery::X11ActiveWindow => match &reply {
            FocusReply::Output(b) => {
                let out = text_from_bytes(b.as_slice());
                match x11_window_id(out.as_str()) {
                    Some(id) => FocusNext::Ask(FocusQuery::X11WindowPid { window_id: id }),
                    None => FocusNext::Found(0),
                }
            },
            _ => FocusNext::Found(0),
        },
        FocusQuery::X11WindowPid { .. } => match &reply {
            FocusReply::Output(b) => {
                let out = text_from_bytes(b.as_slice());
                FocusNext::Found(x11_window_pid(out.as_str()))
            },
            _ => FocusNext::Found(0),
        },
    }
}

impl FocusedWindow {
    /// Records what one search found: a non-zero pid becomes the focused one,
    /// and its name (the trimmed `comm` of the process) when it could be read.
    pub fn observe(&mut self, pid: u32, comm: Option<&str>)
        ensures
            pid == 0 ==> *final(self) == *old(self),
            pid != 0 ==> final(self).pid == pid,
            pid != 0 ==> final(self).name@ == match comm {
                Some(c) => spec_trim(c@),
                None => old(self).name@,
            },
    {
        if pid != 0 {
            self.pid = pid;
            match comm {
                Some(c) => {
                    self.name = trim(c);
                },
                None => {},
            }
        }
    }
}

fn owned_all(parts: &[&str]) -> (r: Vec<String>)
    ensures
        r@.len() == parts@.len(),
        forall|i: int| 0 <= i < parts@.len() ==> (#[trigger] r@[i])@ == parts@[i]@,
{
    let mut r: Vec<String> = Vec::new();
    let mut i: usize = 0;
    while i < parts.len()
        invariant
            i <= parts@.len(),
            r@.len() == i,
            forall|k: int| 0 <= k < i ==> (#[trigger] r@[k])@ == parts@[k]@,
        decreases parts.len() - i,
    {
        r.push(parts[i].to_owned());
        i = i + 1;
    }
    r
}

/// The words of a command line, as plain text.
pub open spec fn words_model(ws: Seq<String>) -> Seq<Seq<char>> {
    ws.map_values(|w: String| w@)
}

/// The program and arguments that ask a question.
pub open spec fn spec_query_command(q: QueryModel) -> Seq<Seq<char>> {
    match q {
        QueryModel::HyprlandActiveWindow => seq!["hyprctl"@, "activewindow"@, "-j"@],
        QueryModel::SwayTree => seq!["swaymsg"@, "-t"@, "get_tree"@],
        QueryModel::KdeActiveWindow => seq![
            "dbus-send"@, "--session"@, "--print-reply"@, "--dest=org.kde.KWin"@, "/KWin"@,
            "org.kde.KWin.activeWindow"@,
        ],
        QueryModel::KdeWindowPid(path) => seq![
            "dbus-send"@, "--session"@, "--print-reply"@, "--dest=org.kde.KWin"@, path,
            "org.freedesktop.DBus.Properties.Get"@, "string:org.kde.KWin.Window"@, "string:pid"@,
        ],
        QueryModel::X11ActiveWindow => seq!["xprop"@, "-root"@, "_NET_ACTIVE_WINDOW"@],
        QueryModel::X11WindowPid(id) => seq!["xprop"@, "-id"@, id, "_NET_WM_PID"@],
    }
}

/// The command line (program first) that asks this question.
pub fn query_command(q: &FocusQuery) -> (r: Vec<String>)
    ensures
        words_model(r@) == spec_query_command(q@),
{
    let r = match q {
        FocusQuery::HyprlandActiveWindow => owned_all(&["hyprctl", "activewindow", "-j"]),
        FocusQuery::SwayTree => owned_all(&["swaymsg", "-t", "get_tree"]),
        FocusQuery::KdeActiveWindow => owned_all(
            &["dbus-send", "--session", "--print-reply", "--dest=org.kde.KWin", "/KWin", "org.kde.KWin.activeWindow"],
        ),
        FocusQuery::KdeWindowPid { object_path } => owned_all(
            &[
                "dbus-send",
                "--session",
                "--print-reply",
                "--dest=org.kde.KWin",
                object_path.as_str(),
                "org.freedesktop.DBus.Properties.Get",
                "string:org.kde.KWin.Window",
                "string:pid",
            ],
        ),
        FocusQuery::X11ActiveWindow => owned_all(&["xprop", "-root", "_NET_ACTIVE_WINDOW"]),
        FocusQuery::X11WindowPid { window_id } => owned_all(&["xprop", "-id", window_id.as_str(), "_NET_WM_PID"]),
    };
    proof {
        assert(words_model(r@) =~= spec_query_command(q@));
    }
    r
}

/// The search over a list of sibling windows visits every one of them in
/// order: when the window at position `k` finds a pid and none before it does,
/// that pid is the answer, wherever `k` is in the list.
pub proof fn law_siblings_searched_in_order(ns: Seq<WindowNode>, k: int)
    requires
        0 <= k < ns.len(),
        spec_focused_pid(ns[k]) != 0,
        forall|j: int| 0 <= j < k ==> spec_focused_pid(#[trigger] ns[j]) == 0,
    ensures
        spec_first_focused(ns) == spec_focused_pid(ns[k]),
    decreases k,
{
    if k > 0 {
        let rest = ns.subrange(1, ns.len() as int);
        assert(spec_focused_pid(ns[0]) == 0);
        assert(rest[k - 1] == ns[k]);
        assert forall|j: int| 0 <= j < k - 1 implies spec_focused_pid(#[trigger] rest[j]) == 0 by {
            assert(rest[j] == ns[j + 1]);
        }
        law_siblings_searched_in_order(rest, k - 1);
    }
}

/// When no window of a list finds a pid, the list answers 0.
pub proof fn law_siblings_none_found(ns: Seq<WindowNode>)
    requires
        forall|j: int| 0 <= j < ns.len() ==> spec_focused_pid(#[trigger] ns[j]) == 0,
    ensures
        spec_first_focused(ns) == 0,
    decreases ns.len(),
{
    if ns.len() > 0 {
        let rest = ns.subrange(1, ns.len() as int);
        assert(spec_focused_pid(ns[0]) == 0);
        assert forall|j: int| 0 <= j < rest.len() implies spec_focused_pid(#[trigger] rest[j]) == 0 by {
            assert(rest[j] == ns[j + 1]);
        }
        law_siblings_none_found(rest);
    }
}

/// How the search of one window answers: a focused window gives its own pid
/// (0 when it has none); otherwise the first tiled child, at any position,
/// that finds a pid decides; when no tiled child finds one, the first floating
/// child that finds one decides; and with no pid found anywhere the answer is 0.
pub proof fn law_window_search(n: WindowNode, k: int)
    ensures
        n.focused == Some(true) ==> spec_focused_pid(n) == (match n.pid {
            Some(p) => p as u32,
            None => 0u32,
        }),
        n.focused != Some(true) && n.nodes is Some && 0 <= k < n.nodes->0@.len()
            && spec_focused_pid(n.nodes->0@[k]) != 0
            && (forall|j: int| 0 <= j < k ==> spec_focused_pid(#[trigger] n.nodes->0@[j]) == 0)
            ==> spec_focused_pid(n) == spec_focused_pid(n.nodes->0@[k]),
        n.focused != Some(true)
            && (n.nodes is Some ==> forall|j: int| 0 <= j < n.nodes->0@.len() ==> spec_focused_pid(#[trigger] n.nodes->0@[j]) == 0)
            && n.floating_nodes is Some && 0 <= k < n.floating_nodes->0@.len()
            && spec_focused_pid(n.floating_nodes->0@[k]) != 0
            && (forall|j: int| 0 <= j < k ==> spec_focused_pid(#[trigger] n.floating_nodes->0@[j]) == 0)
            ==> spec_focused_pid(n) == spec_focused_pid(n.floating_nodes->0@[k]),
        n.focused != Some(true)
            && (n.nodes is Some ==> forall|j: int| 0 <= j < n.nodes->0@.len() ==> spec_focused_pid(#[trigger] n.nodes->0@[j]) == 0)
            && (n.floating_nodes is Some ==> forall|j: int| 0 <= j < n.floating_nodes->0@.len() ==> spec_focused_pid(#[trigger] n.floating_nodes->0@[j]) == 0)
            ==> spec_focused_pid(n) == 0,
{
    if n.focused != Some(true) {
        match n.nodes {
            Some(v) => {
                if 0 <= k < v@.len() && spec_focused_pid(v@[k]) != 0
                    && (forall|j: int| 0 <= j < k ==> spec_focused_pid(#[trigger] v@[j]) == 0) {
                    law_siblings_searched_in_order(v@, k);
                }
                if forall|j: int| 0 <= j < v@.len() ==> spec_focused_pid(#[trigger] v@[j]) == 0 {
                    law_siblings_none_found(v@);
                }
            },
            None => {},
        }
        match n.floating_nodes {
            Some(v) => {
                if 0 <= k < v@.len() && spec_focused_pid(v@[k]) != 0
                    && (forall|j: int| 0 <= j < k ==> spec_focused_pid(#[trigger] v@[j]) == 0) {
                    law_siblings_searched_in_order(v@, k);
                }
                if forall|j: int| 0 <= j < v@.len() ==> spec_focused_pid(#[trigger] v@[j]) == 0 {
                    law_siblings_none_found(v@);
                }
            },
            None => {},
        }
    }
}

/// Laws of the focus search: it ends after at most four questions, a backend's
/// pid ends it only when not 0, and only the X11 questions can end it with 0.
pub proof fn law_focus_search_bounded(q: QueryModel, reply: FocusReply)
    ensures
        match spec_focus_step(q, reply) {
            NextModel::Ask(q2) => query_rank(q2) < query_rank(q),
            NextModel::Found(p) => p != 0 || q == QueryModel::X11ActiveWindow || q is X11WindowPid,
        },
        query_rank(q) <= 3,
{
}

} // verus!
