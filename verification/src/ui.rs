use vstd::prelude::*;
use crate::procs::{GroupModel, ProcessGroup, groups_model};
use crate::text::{
    after_last, contains, decimal, ends_with, lines, lowercase, parse_u32, replace_all,
    spec_after_last, spec_contains, spec_decimal, spec_lines, spec_parse_u32, spec_replace,
    spec_trim, starts_with, matches_at, text_from_bytes, to_lowercase, trim, utf8_lossy,
};

verus! {

broadcast use vstd::string::group_string_axioms;

/// The version of this program.
pub const CURRENT_VERSION: &'static str = "0.1.0";

/// The badge in the header: "ACTIVE" with the `active` style while there are
/// targets, else "IDLE" with the `inactive` style.
pub fn status_badge(has_targets: bool) -> (r: (&'static str, &'static str))
    ensures
        has_targets ==> r.0@ == "ACTIVE"@ && r.1@ == "active"@,
        !has_targets ==> r.0@ == "IDLE"@ && r.1@ == "inactive"@,
{
    if has_targets {
        ("ACTIVE", "active")
    } else {
        ("IDLE", "inactive")
    }
}

/// The page shown at start.
#[derive(Debug, Clone, Copy, PartialEq, Eq, Structural)]
pub enum StartPage {
    Main,
    /// The offer to add the program to the application menu.
    Desktop,
}

/// Which page to show first. The menu offer comes only once the warning was
/// shown, for a user install (not under `/usr`) that has neither installed
/// nor skipped the desktop entry and has no entry file; every other case
/// (whatever the last version run) opens the main page.
pub fn start_page(
    shown_warning: bool,
    is_system: bool,
    desktop_installed: bool,
    desktop_exists: bool,
    last_run_version: Option<&str>,
) -> (r: StartPage)
    ensures
        r == (if shown_warning && !is_system && !desktop_installed && !desktop_exists {
            StartPage::Desktop
        } else {
            StartPage::Main
        }),
{
    if !shown_warning && !is_system {
        StartPage::Main
    } else if !desktop_installed && !desktop_exists && !is_system {
        StartPage::Desktop
    } else {
        match last_run_version {
            Some(_) => StartPage::Main,
            None => StartPage::Main,
        }
    }
}

/// The pid line of a target card: "PID: ALL" for a target of all processes of
/// a name, else "PID: " and the pid.
pub fn pid_label(pid: u32) -> (r: String)
    ensures
        r@ == (if pid == 0 { "PID: ALL"@ } else { "PID: "@ + spec_decimal(pid as nat) }),
{
    if pid == 0 {
        "PID: ALL".to_owned()
    } else {
        let mut r = "PID: ".to_owned();
        let d = decimal(pid);
        r.append(d.as_str());
        r
    }
}

/// A limit in tenths of a percent written as `f64`'s `Display` writes the
/// percentage: the whole part, and the tenth only when it is not zero.
pub open spec fn spec_percent(tenths: u32) -> Seq<char> {
    if tenths % 10 == 0 {
        spec_decimal((tenths / 10) as nat)
    } else {
        spec_decimal((tenths / 10) as nat) + seq!['.'] + spec_decimal((tenths % 10) as nat)
    }
}

/// The limit shown on a target card, such as "-33%" or "-33.5%".
pub fn limit_label(tenths: u32) -> (r: String)
    ensures
        r@ == seq!['-'] + spec_percent(tenths) + seq!['%'],
{
    proof {
        reveal_strlit("-");
        reveal_strlit(".");
        reveal_strlit("%");
    }
    let mut r = "-".to_owned();
    let whole = decimal(tenths / 10);
    r.append(whole.as_str());
    if tenths % 10 != 0 {
        r.append(".");
        let frac = decimal(tenths % 10);
        r.append(frac.as_str());
    }
    r.append("%");
    proof {
        assert(r@ =~= seq!['-'] + spec_percent(tenths) + seq!['%']);
    }
    r
}

/// The limit shown while the slider moves: with the fine step one decimal
/// ("-33.0%"); with whole steps the percentage rounded half away from zero ("-34%").
pub fn limit_slider_label(tenths: u32, fine: bool) -> (r: String)
    ensures
        fine ==> r@ == seq!['-'] + spec_decimal((tenths / 10) as nat) + seq!['.'] + spec_decimal((tenths % 10) as nat) + seq!['%'],
        !fine ==> r@ == seq!['-'] + spec_decimal(((tenths as int + 5) / 10) as nat) + seq!['%'],
{
    proof {
        reveal_strlit("-");
        reveal_strlit(".");
        reveal_strlit("%");
    }
    let mut r = "-".to_owned();
    if fine {
        let whole = decimal(tenths / 10);
        r.append(whole.as_str());
        r.append(".");
        let frac = decimal(tenths % 10);
        r.append(frac.as_str());
    } else {
        let rounded = ((tenths as u64 + 5) / 10) as u32;
        let d = decimal(rounded);
        r.append(d.as_str());
    }
    r.append("%");
    proof {
        if fine {
            assert(r@ =~= seq!['-'] + spec_decimal((tenths / 10) as nat) + seq!['.'] + spec_decimal((tenths % 10) as nat) + seq!['%']);
        } else {
            assert(r@ =~= seq!['-'] + spec_decimal(((tenths as int + 5) / 10) as nat) + seq!['%']);
        }
    }
    r
}

/// The limit slider's top and step, in tenths of a percent: 99.9 % in steps of
/// 0.1 when deep limits are allowed, else 99 % in steps of 1.
pub fn limit_range(allow_limit_99: bool) -> (r: (u32, u32))
    ensures
        r == (if allow_limit_99 { (999u32, 1u32) } else { (990u32, 10u32) }),
{
    if allow_limit_99 {
        (999, 1)
    } else {
        (990, 10)
    }
}

/// Kinds of lines in the compatibility list.
#[derive(Debug, Clone, Copy, PartialEq, Eq, Structural)]
pub enum ItemStatus {
    Good,
    Bad,
    Warning,
    Info,
}

/// The style class and the icon of a compatibility line.
pub fn item_style(status: &ItemStatus) -> (r: (&'static str, &'static str))
    ensures
        match status {
            ItemStatus::Good => r.0@ == "ok"@ && r.1@ == "emblem-ok-symbolic"@,
            ItemStatus::Bad => r.0@ == "error"@ && r.1@ == "dialog-error-symbolic"@,
            ItemStatus::Warning => r.0@ == "warning-item"@ && r.1@ == "dialog-warning-symbolic"@,
            ItemStatus::Info => r.0@ == "info-item"@ && r.1@ == "dialog-information-symbolic"@,
        },
{
    match status {
        ItemStatus::Good => ("ok", "emblem-ok-symbolic"),
        ItemStatus::Bad => ("error", "dialog-error-symbolic"),
        ItemStatus::Warning => ("warning-item", "dialog-warning-symbolic"),
        ItemStatus::Info => ("info-item", "dialog-information-symbolic"),
    }
}

/// What the latest published version says, given whether the fetch command
/// ran and succeeded and the text it printed: the trimmed text, when it is not
/// empty and not a "Not Found" page, with whether it is this version;
/// otherwise the failure message.
pub open spec fn spec_latest_version(ran_ok: bool, text: Seq<char>) -> Result<(bool, Seq<char>), Seq<char>> {
    let latest = spec_trim(text);
    if ran_ok && latest.len() > 0 && !spec_contains(latest, "Not Found"@) {
        Ok((latest == "0.1.0"@, latest))
    } else {
        Err("Failed to check for updates"@)
    }
}

/// The same, from the bytes the command printed (decoded as UTF-8, invalid
/// sequences replaced).
pub open spec fn spec_version_check(ran_ok: bool, stdout: Seq<u8>) -> Result<(bool, Seq<char>), Seq<char>> {
    spec_latest_version(ran_ok, utf8_lossy(stdout))
}

/// Reads the text of the update check's answer.
pub fn latest_version(ran_ok: bool, text: &str) -> (r: Result<(bool, String), String>)
    ensures
        match (r, spec_latest_version(ran_ok, text@)) {
            (Ok((same, v)), Ok((s2, v2))) => same == s2 && v@ == v2,
            (Err(e), Err(e2)) => e@ == e2,
            _ => false,
        },
{
    if ran_ok {
        let latest = trim(text);
        if latest.unicode_len() > 0 && !contains(latest.as_str(), "Not Found") {
            let current = CURRENT_VERSION.to_owned();
            proof {
                reveal_strlit("0.1.0");
            }
            let same = current == latest;
            return Ok((same, latest));
        }
    }
    Err("Failed to check for updates".to_owned())
}

/// Reads the answer of the update check.
pub fn version_check(ran_ok: bool, stdout: &[u8]) -> (r: Result<(bool, String), String>)
    ensures
        match (r, spec_version_check(ran_ok, stdout@)) {
            (Ok((same, v)), Ok((s2, v2))) => same == s2 && v@ == v2,
            (Err(e), Err(e2)) => e@ == e2,
            _ => false,
        },
{
    let text = text_from_bytes(stdout);
    latest_version(ran_ok, text.as_str())
}

/// The version line of the settings page when the check succeeded: its text,
/// its button and its kind.
pub fn version_message(up_to_date: bool, latest: &str) -> (r: (String, &'static str, ItemStatus))
    ensures
        up_to_date ==> r.0@ == "Current: v0.1.0. You have the latest version."@ && r.1@ == "CHECK"@ && r.2 is Good,
        !up_to_date ==> r.0@ == "Update available: v"@ + latest@ + ". Visit GitHub to download."@ && r.1@ == "UPDATE"@ && r.2 is Info,
{
    if up_to_date {
        ("Current: v0.1.0. You have the latest version.".to_owned(), "CHECK", ItemStatus::Good)
    } else {
        let mut t = "Update available: v".to_owned();
        t.append(latest);
        t.append(". Visit GitHub to download.");
        (t, "UPDATE", ItemStatus::Info)
    }
}

/// What the button of the version line does.
#[derive(Debug, Clone, Copy, PartialEq, Eq, Structural)]
pub enum VersionAction {
    /// Runs the check again.
    Recheck,
    /// Opens the page of released versions.
    OpenReleases,
}

/// The version line of the settings page for each result of the update check:
/// this version is the latest (CHECK, runs the check again), a newer one
/// exists (UPDATE, opens the releases), or the check failed and its message is
/// shown with a RETRY button (runs the check again).
pub fn version_line(res: &Result<(bool, String), String>) -> (r: (String, &'static str, ItemStatus, VersionAction))
    ensures
        match *res {
            Ok((true, _)) => r.0@ == "Current: v0.1.0. You have the latest version."@ && r.1@ == "CHECK"@
                && r.2 is Good && r.3 is Recheck,
            Ok((false, latest)) => r.0@ == "Update available: v"@ + latest@ + ". Visit GitHub to download."@
                && r.1@ == "UPDATE"@ && r.2 is Info && r.3 is OpenReleases,
            Err(e) => r.0@ == e@ && r.1@ == "RETRY"@ && r.2 is Warning && r.3 is Recheck,
        },
{
    match res {
        Ok((up_to_date, latest)) => {
            let (t, b, st) = version_message(*up_to_date, latest.as_str());
            let action = if *up_to_date { VersionAction::Recheck } else { VersionAction::OpenReleases };
            (t, b, st, action)
        },
        Err(e) => (e.clone(), "RETRY", ItemStatus::Warning, VersionAction::Recheck),
    }
}

/// The version line while the check runs.
pub fn version_pending() -> (r: (String, ItemStatus))
    ensures
        r.0@ == "Checking for updates..."@,
        r.1 is Good,
{
    ("Checking for updates...".to_owned(), ItemStatus::Good)
}

/// The desktop-integration line of the settings page: none for a system
/// install; otherwise good when the desktop entry exists, else a warning with
/// a FIX button (the flag says whether the button is shown).
pub fn desktop_item(is_system: bool, desktop_ok: bool) -> (r: Option<(ItemStatus, bool)>)
    ensures
        r == (if is_system {
            None
        } else if desktop_ok {
            Some((ItemStatus::Good, false))
        } else {
            Some((ItemStatus::Warning, true))
        }),
{
    if is_system {
        None
    } else if desktop_ok {
        Some((ItemStatus::Good, false))
    } else {
        Some((ItemStatus::Warning, true))
    }
}

/// The total of the first group of this name, or 0.
pub open spec fn first_named_total(gs: Seq<GroupModel>, name: Seq<char>) -> u128
    decreases gs.len(),
{
    if gs.len() == 0 {
        0
    } else if gs[0].name == name {
        gs[0].total_ticks
    } else {
        first_named_total(gs.subrange(1, gs.len() as int), name)
    }
}

/// The ticks of the first entry with this pid in a group's entries, if any.
pub open spec fn entry_ticks(es: Seq<crate::procs::ProcessEntry>, pid: u32) -> Option<u64>
    decreases es.len(),
{
    if es.len() == 0 {
        None
    } else if es[0].pid == pid {
        Some(es[0].cpu_ticks)
    } else {
        entry_ticks(es.subrange(1, es.len() as int), pid)
    }
}

/// The ticks of this pid in the first group that has it, or 0.
pub open spec fn first_pid_ticks(gs: Seq<GroupModel>, pid: u32) -> u128
    decreases gs.len(),
{
    if gs.len() == 0 {
        0
    } else {
        match entry_ticks(gs[0].entries, pid) {
            Some(t) => t as u128,
            None => first_pid_ticks(gs.subrange(1, gs.len() as int), pid),
        }
    }
}

/// The CPU ticks that a target card shows: the card's pid line ends in "ALL"
/// for a name-wide target (then the total of its name's group) or in a pid
/// (then that process's ticks); 0 when nothing matches.
pub open spec fn spec_card_ticks(gs: Seq<GroupModel>, name_text: Seq<char>, pid_text: Seq<char>) -> u128 {
    let raw = spec_trim(spec_after_last(pid_text, ':'));
    if raw == "ALL"@ {
        first_named_total(gs, name_text)
    } else {
        match spec_parse_u32(raw) {
            Some(p) => first_pid_ticks(gs, p),
            None => 0,
        }
    }
}

fn find_entry_ticks(es: &Vec<crate::procs::ProcessEntry>, pid: u32) -> (r: Option<u64>)
    ensures
        r == entry_ticks(es@, pid),
{
    let n = es.len();
    let mut i: usize = 0;
    proof {
        assert(es@.subrange(0, n as int) =~= es@);
    }
    while i < n
        invariant
            i <= n,
            n == es@.len(),
            entry_ticks(es@, pid) == entry_ticks(es@.subrange(i as int, n as int), pid),
        decreases n - i,
    {
        proof {
            let rest = es@.subrange(i as int, n as int);
            assert(rest[0] == es@[i as int]);
            assert(rest.subrange(1, rest.len() as int) =~= es@.subrange(i + 1, n as int));
        }
        if es[i].pid == pid {
            return Some(es[i].cpu_ticks);
        }
        i = i + 1;
    }
    None
}

/// The CPU ticks to show on a target card, from its name and pid lines.
pub fn card_ticks(available: &Vec<ProcessGroup>, name_text: &str, pid_text: &str) -> (r: u128)
    ensures
        r == spec_card_ticks(groups_model(available@), name_text@, pid_text@),
{
    let ghost gs = groups_model(available@);
    let tail = after_last(pid_text, ':');
    let raw = trim(tail.as_str());
    let all = "ALL".to_owned();
    let n = available.len();
    proof {
        assert(gs.subrange(0, n as int) =~= gs);
    }
    proof {
        reveal_strlit("ALL");
    }
    if raw == all {
        let name = name_text.to_owned();
        let mut i: usize = 0;
        while i < n
            invariant
                i <= n,
                n == gs.len(),
                gs == groups_model(available@),
                first_named_total(gs, name_text@) == first_named_total(gs.subrange(i as int, n as int), name_text@),
                name@ == name_text@,
                raw@ == spec_trim(spec_after_last(pid_text@, ':')),
                raw@ == "ALL"@,
            decreases n - i,
        {
            proof {
                let rest = gs.subrange(i as int, n as int);
                assert(rest[0] == available@[i as int]@);
                assert(rest.subrange(1, rest.len() as int) =~= gs.subrange(i + 1, n as int));
            }
            if available[i].name == name {
                return available[i].total_ticks;
            }
            i = i + 1;
        }
        0
    } else {
        match parse_u32(raw.as_str()) {
            Some(p) => {
                let mut i: usize = 0;
                while i < n
                    invariant
                        i <= n,
                        n == gs.len(),
                        gs == groups_model(available@),
                        first_pid_ticks(gs, p) == first_pid_ticks(gs.subrange(i as int, n as int), p),
                        raw@ == spec_trim(spec_after_last(pid_text@, ':')),
                        raw@ != "ALL"@,
                        spec_parse_u32(raw@) == Some(p),
                    decreases n - i,
                {
                    proof {
                        let rest = gs.subrange(i as int, n as int);
                        assert(rest[0] == available@[i as int]@);
                        assert(rest.subrange(1, rest.len() as int) =~= gs.subrange(i + 1, n as int));
                    }
                    match find_entry_ticks(&available[i].entries, p) {
                        Some(t) => {
                            return t as u128;
                        },
                        None => {},
                    }
                    i = i + 1;
                }
                0
            },
            None => 0,
        }
    }
}

/// A process is this program itself when its name holds "lbs" in any case;
/// such processes are neither listed nor limited.
pub open spec fn spec_is_self_process(name: Seq<char>) -> bool {
    spec_contains(lowercase(name), "lbs"@)
}

/// Whether a process is this program itself.
pub fn is_self_process(name: &str) -> (r: bool)
    ensures
        r == spec_is_self_process(name@),
{
    let lower = to_lowercase(name);
    contains(lower.as_str(), "lbs")
}

/// A group counts as a system group in the picker when one of its processes
/// has a pid below 1000 or is a kernel thread.
pub open spec fn is_picker_system(g: GroupModel) -> bool {
    exists|i: int| 0 <= i < g.entries.len() && ((#[trigger] g.entries[i]).pid < 1000 || g.entries[i].is_kernel)
}

/// The picker lists a group unless it is this program, or a system group
/// while those are hidden, or its lower-case name misses the lower-case filter.
pub open spec fn group_listed(g: GroupModel, filter_lower: Seq<char>, show_system: bool) -> bool {
    &&& !spec_is_self_process(g.name)
    &&& show_system || !is_picker_system(g)
    &&& filter_lower.len() == 0 || spec_contains(lowercase(g.name), filter_lower)
}

/// A row of the process picker, by position in the process list: a group of
/// several processes (with its own rows) or a single process.
#[derive(Debug, Clone, Copy, PartialEq, Eq, Structural)]
pub enum PickerRow {
    Group(usize),
    Single(usize),
}

pub open spec fn spec_picker_rows(gs: Seq<GroupModel>, filter_lower: Seq<char>, show_system: bool) -> Seq<PickerRow>
    decreases gs.len(),
{
    if gs.len() == 0 {
        Seq::empty()
    } else {
        let i = gs.len() - 1;
        let g = gs[i];
        let rest = spec_picker_rows(gs.drop_last(), filter_lower, show_system);
        if !group_listed(g, filter_lower, show_system) {
            rest
        } else if g.entries.len() > 1 {
            rest.push(PickerRow::Group(i as usize))
        } else if g.entries.len() == 1 {
            rest.push(PickerRow::Single(i as usize))
        } else {
            rest
        }
    }
}

fn group_is_picker_system(g: &ProcessGroup) -> (r: bool)
    ensures
        r == is_picker_system(g@),
{
    let mut i: usize = 0;
    while i < g.entries.len()
        invariant
            i <= g.entries@.len(),
            forall|j: int| 0 <= j < i ==> !((#[trigger] g.entries@[j]).pid < 1000 || g.entries@[j].is_kernel),
        decreases g.entries.len() - i,
    {
        if g.entries[i].pid < 1000 || g.entries[i].is_kernel {
            assert(g@.entries[i as int] == g.entries@[i as int]);
            return true;
        }
        i = i + 1;
    }
    false
}

/// The rows of the process picker for a search text (compared in lower case).
pub fn picker_rows(groups: &Vec<ProcessGroup>, search: &str, show_system: bool) -> (r: Vec<PickerRow>)
    ensures
        r@ == spec_picker_rows(groups_model(groups@), lowercase(search@), show_system),
{
    let filter = to_lowercase(search);
    let ghost gs = groups_model(groups@);
    let mut rows: Vec<PickerRow> = Vec::new();
    let mut i: usize = 0;
    proof {
        assert(gs.take(0) =~= Seq::<GroupModel>::empty());
    }
    while i < groups.len()
        invariant
            i <= groups@.len(),
            gs == groups_model(groups@),
            filter@ == lowercase(search@),
            rows@ == spec_picker_rows(gs.take(i as int), filter@, show_system),
        decreases groups.len() - i,
    {
        let g = &groups[i];
        proof {
            assert(gs[i as int] == g@);
            assert(gs.take(i + 1).drop_last() =~= gs.take(i as int));
            assert(gs.take(i + 1)[i as int] == g@);
        }
        let name_lower = to_lowercase(g.name.as_str());
        let listed = !contains(name_lower.as_str(), "lbs")
            && (show_system || !group_is_picker_system(g))
            && (filter.unicode_len() == 0 || contains(name_lower.as_str(), filter.as_str()));
        if listed {
            if g.entries.len() > 1 {
                rows.push(PickerRow::Group(i));
            } else if g.entries.len() == 1 {
                rows.push(PickerRow::Single(i));
            }
        }
        i = i + 1;
    }
    proof {
        assert(gs.take(i as int) =~= gs);
    }
    rows
}

/// The icon used when no better one is found.
pub const DEFAULT_ICON: &'static str = "application-x-executable-symbolic";

/// A process name made plain for icon lookups: lower case, without "-bin",
/// "-wrapper" and ".real".
pub open spec fn spec_clean_name(name: Seq<char>) -> Seq<char> {
    spec_replace(spec_replace(spec_replace(lowercase(name), "-bin"@, Seq::empty()), "-wrapper"@, Seq::empty()), ".real"@, Seq::empty())
}

/// The icon names to try for a process, in order: its trimmed name, that name
/// in lower case, and the plain name; none for an empty name (then the
/// default icon is used).
pub fn icon_candidates(proc_name: &str) -> (r: Option<Vec<String>>)
    ensures
        match r {
            Some(v) => {
                let n = spec_trim(proc_name@);
                &&& n.len() > 0
                &&& v@.len() == 3
                &&& v@[0]@ == n
                &&& v@[1]@ == lowercase(n)
                &&& v@[2]@ == spec_clean_name(n)
            },
            None => spec_trim(proc_name@).len() == 0,
        },
{
    let name = trim(proc_name);
    if name.unicode_len() == 0 {
        return None;
    }
    let lower = to_lowercase(name.as_str());
    let clean = clean_name(name.as_str());
    let mut v: Vec<String> = Vec::new();
    v.push(name);
    v.push(lower);
    v.push(clean);
    Some(v)
}

/// The plain name of a process for icon lookups.
pub fn clean_name(name: &str) -> (r: String)
    ensures
        r@ == spec_clean_name(name@),
{
    proof {
        reveal_strlit("-bin");
        reveal_strlit("-wrapper");
        reveal_strlit(".real");
        reveal_strlit("");
    }
    let lower = to_lowercase(name);
    let a = replace_all(lower.as_str(), "-bin", "");
    let b = replace_all(a.as_str(), "-wrapper", "");
    let c = replace_all(b.as_str(), ".real", "");
    proof {
        assert(""@ =~= Seq::<char>::empty());
    }
    c
}

/// A desktop file is searched for an icon when its lower-case name holds the
/// plain process name and ends in ".desktop".
pub fn desktop_file_matches(file_name: &str, clean: &str) -> (r: bool)
    ensures
        r == (spec_contains(lowercase(file_name@), clean@)
            && ".desktop"@.len() <= lowercase(file_name@).len()
            && matches_at(lowercase(file_name@), ".desktop"@, lowercase(file_name@).len() - ".desktop"@.len())),
{
    let lower = to_lowercase(file_name);
    contains(lower.as_str(), clean) && ends_with(lower.as_str(), ".desktop")
}

/// The icon a desktop-file line names: a line that starts with "Icon=" gives
/// the line without any "Icon=", trimmed.
pub open spec fn spec_icon_of_line(line: Seq<char>) -> Option<Seq<char>> {
    if matches_at(line, "Icon="@, 0) {
        Some(spec_trim(spec_replace(line, "Icon="@, Seq::empty())))
    } else {
        None
    }
}

/// The icons named in a desktop file, in line order.
pub open spec fn spec_desktop_icons(content: Seq<char>) -> Seq<Seq<char>> {
    spec_lines(content).filter(|l: Seq<char>| spec_icon_of_line(l) is Some).map_values(
        |l: Seq<char>| spec_icon_of_line(l)->0,
    )
}

/// The icons named in a desktop file, in order.
pub fn desktop_icons(content: &str) -> (r: Vec<String>)
    ensures
        r@.map_values(|s: String| s@) == spec_desktop_icons(content@),
{
    proof {
        reveal_strlit("Icon=");
        reveal_strlit("");
        assert(""@ =~= Seq::<char>::empty());
    }
    let ls = lines(content);
    let ghost lm = ls@.map_values(|s: String| s@);
    let ghost has_icon = |l: Seq<char>| spec_icon_of_line(l) is Some;
    let mut out: Vec<String> = Vec::new();
    let mut i: usize = 0;
    proof {
        reveal_with_fuel(Seq::filter, 1);
        assert(lm.take(0) =~= Seq::<Seq<char>>::empty());
        assert(out@.map_values(|s: String| s@) =~= Seq::<Seq<char>>::empty());
    }
    while i < ls.len()
        invariant
            i <= ls@.len(),
            lm == ls@.map_values(|s: String| s@),
            lm == spec_lines(content@),
            has_icon == (|l: Seq<char>| spec_icon_of_line(l) is Some),
            out@.map_values(|s: String| s@) == lm.take(i as int).filter(has_icon).map_values(|l: Seq<char>| spec_icon_of_line(l)->0),
        decreases ls.len() - i,
    {
        let line = &ls[i];
        proof {
            reveal_strlit("Icon=");
            reveal_strlit("");
            assert(""@ =~= Seq::<char>::empty());
            assert(lm[i as int] == line@);
            assert(lm.take(i + 1) =~= lm.take(i as int).push(line@));
            lm.take(i as int).lemma_filter_push(line@, has_icon);
        }
        if starts_with(line.as_str(), "Icon=") {
            let stripped = replace_all(line.as_str(), "Icon=", "");
            let icon = trim(stripped.as_str());
            let ghost before = out@;
            out.push(icon);
            proof {
                let f = lm.take(i as int).filter(has_icon);
                assert(f.push(line@).map_values(|l: Seq<char>| spec_icon_of_line(l)->0)
                    =~= f.map_values(|l: Seq<char>| spec_icon_of_line(l)->0).push(icon@));
                assert(out@.map_values(|s: String| s@) =~= before.map_values(|s: String| s@).push(icon@));
            }
        }
        i = i + 1;
    }
    proof {
        assert(lm.take(i as int) =~= lm);
    }
    out
}

/// The directories searched for desktop files, in order: the system ones, the
/// flatpak exports, then the user's own under `home`.
pub fn desktop_search_dirs(home: &str) -> (r: Vec<String>)
    ensures
        r@.map_values(|s: String| s@) == seq![
            "/usr/share/applications"@,
            "/usr/local/share/applications"@,
            "/var/lib/flatpak/exports/share/applications"@,
            home@ + "/.local/share/applications"@,
        ],
{
    let mut user = home.to_owned();
    user.append("/.local/share/applications");
    let mut v: Vec<String> = Vec::new();
    v.push("/usr/share/applications".to_owned());
    v.push("/usr/local/share/applications".to_owned());
    v.push("/var/lib/flatpak/exports/share/applications".to_owned());
    v.push(user);
    proof {
        assert(v@.map_values(|s: String| s@) =~= seq![
            "/usr/share/applications"@,
            "/usr/local/share/applications"@,
            "/var/lib/flatpak/exports/share/applications"@,
            home@ + "/.local/share/applications"@,
        ]);
    }
    v
}

} // verus!

verus! {

/// The total that a name-wide card shows comes from the first group of that
/// name in the process list, wherever it stands; with no group of that name it is 0.
pub proof fn law_named_total_first_match(gs: Seq<GroupModel>, name: Seq<char>, i: int)
    ensures
        0 <= i < gs.len() && gs[i].name == name && (forall|j: int| 0 <= j < i ==> (#[trigger] gs[j]).name != name)
            ==> first_named_total(gs, name) == gs[i].total_ticks,
        (forall|j: int| 0 <= j < gs.len() ==> (#[trigger] gs[j]).name != name) ==> first_named_total(gs, name) == 0,
    decreases gs.len(),
{
    if gs.len() > 0 {
        let rest = gs.subrange(1, gs.len() as int);
        assert forall|j: int| 0 <= j < rest.len() implies rest[j] == gs[j + 1] by {}
        law_named_total_first_match(rest, name, i - 1);
        if 0 <= i < gs.len() && gs[i].name == name && (forall|j: int| 0 <= j < i ==> (#[trigger] gs[j]).name != name) && i > 0 {
            assert(gs[0].name != name);
            assert(rest[i - 1] == gs[i]);
            assert forall|j: int| 0 <= j < i - 1 implies (#[trigger] rest[j]).name != name by {
                assert(rest[j] == gs[j + 1]);
            }
        }
        if forall|j: int| 0 <= j < gs.len() ==> (#[trigger] gs[j]).name != name {
            assert(gs[0].name != name);
            assert forall|j: int| 0 <= j < rest.len() implies (#[trigger] rest[j]).name != name by {
                assert(rest[j] == gs[j + 1]);
            }
        }
    }
}

/// The ticks that a card for one pid shows are those of the first process with
/// that pid in the first group that has it, wherever they stand; 0 when no
/// group has the pid.
pub proof fn law_pid_ticks_first_match(gs: Seq<GroupModel>, pid: u32, i: int, e: int)
    ensures
        0 <= i < gs.len() && 0 <= e < gs[i].entries.len() && gs[i].entries[e].pid == pid
            && (forall|j: int, f: int| 0 <= j < i && 0 <= f < gs[j].entries.len() ==> (#[trigger] gs[j].entries[f]).pid != pid)
            && (forall|f: int| 0 <= f < e ==> (#[trigger] gs[i].entries[f]).pid != pid)
            ==> first_pid_ticks(gs, pid) == gs[i].entries[e].cpu_ticks,
        (forall|j: int, f: int| 0 <= j < gs.len() && 0 <= f < gs[j].entries.len() ==> (#[trigger] gs[j].entries[f]).pid != pid)
            ==> first_pid_ticks(gs, pid) == 0,
    decreases gs.len(),
{
    if gs.len() > 0 {
        let rest = gs.subrange(1, gs.len() as int);
        law_pid_ticks_first_match(rest, pid, i - 1, e);
        lemma_entry_ticks(gs[0].entries, pid, e);
        if 0 <= i < gs.len() && 0 <= e < gs[i].entries.len() && gs[i].entries[e].pid == pid
            && (forall|j: int, f: int| 0 <= j < i && 0 <= f < gs[j].entries.len() ==> (#[trigger] gs[j].entries[f]).pid != pid)
            && (forall|f: int| 0 <= f < e ==> (#[trigger] gs[i].entries[f]).pid != pid) {
            if i > 0 {
                assert(entry_ticks(gs[0].entries, pid) is None);
                assert(rest[i - 1] == gs[i]);
                assert forall|j: int, f: int| 0 <= j < i - 1 && 0 <= f < rest[j].entries.len()
                    implies (#[trigger] rest[j].entries[f]).pid != pid by {
                    assert(rest[j] == gs[j + 1]);
                }
            }
        }
        if forall|j: int, f: int| 0 <= j < gs.len() && 0 <= f < gs[j].entries.len() ==> (#[trigger] gs[j].entries[f]).pid != pid {
            assert(entry_ticks(gs[0].entries, pid) is None);
            assert forall|j: int, f: int| 0 <= j < rest.len() && 0 <= f < rest[j].entries.len()
                implies (#[trigger] rest[j].entries[f]).pid != pid by {
                assert(rest[j] == gs[j + 1]);
            }
        }
    }
}

/// The first entry with a pid decides its ticks; with none, there are none.
proof fn lemma_entry_ticks(es: Seq<crate::procs::ProcessEntry>, pid: u32, e: int)
    ensures
        0 <= e < es.len() && es[e].pid == pid && (forall|f: int| 0 <= f < e ==> (#[trigger] es[f]).pid != pid)
            ==> entry_ticks(es, pid) == Some(es[e].cpu_ticks),
        (forall|f: int| 0 <= f < es.len() ==> (#[trigger] es[f]).pid != pid) ==> entry_ticks(es, pid) is None,
    decreases es.len(),
{
    if es.len() > 0 {
        let rest = es.subrange(1, es.len() as int);
        lemma_entry_ticks(rest, pid, e - 1);
        if 0 <= e < es.len() && es[e].pid == pid && (forall|f: int| 0 <= f < e ==> (#[trigger] es[f]).pid != pid) && e > 0 {
            assert(es[0].pid != pid);
            assert(rest[e - 1] == es[e]);
            assert forall|f: int| 0 <= f < e - 1 implies (#[trigger] rest[f]).pid != pid by {
                assert(rest[f] == es[f + 1]);
            }
        }
        if forall|f: int| 0 <= f < es.len() ==> (#[trigger] es[f]).pid != pid {
            assert(es[0].pid != pid);
            assert forall|f: int| 0 <= f < rest.len() implies (#[trigger] rest[f]).pid != pid by {
                assert(rest[f] == es[f + 1]);
            }
        }
    }
}

/// The position in the process list that a picker row shows.
pub open spec fn row_index(row: PickerRow) -> int {
    match row {
        PickerRow::Group(i) => i as int,
        PickerRow::Single(i) => i as int,
    }
}

/// What a group of the process list must be for the picker to show it: not this
/// program, with no process below pid 1000 and no kernel thread while system
/// processes are hidden, with the lower-case filter in its lower-case name (or
/// no filter), and with at least one process.
pub open spec fn picker_shows(g: GroupModel, filter_lower: Seq<char>, show_system: bool) -> bool {
    &&& !spec_contains(lowercase(g.name), "lbs"@)
    &&& (!show_system ==> forall|e: int| 0 <= e < g.entries.len()
        ==> (#[trigger] g.entries[e]).pid >= 1000 && !g.entries[e].is_kernel)
    &&& (filter_lower.len() == 0 || spec_contains(lowercase(g.name), filter_lower))
    &&& g.entries.len() > 0
}

/// The process picker shows exactly the groups that qualify, each once, in the
/// order of the process list: a group with one process as a single row, a group
/// with several as an expandable row. A group with any system process (a pid
/// below 1000 or a kernel thread) is never shown while system processes are hidden.
pub proof fn law_picker_rows(gs: Seq<GroupModel>, filter_lower: Seq<char>, show_system: bool)
    requires
        gs.len() <= usize::MAX,
    ensures
        ({
            let rows = spec_picker_rows(gs, filter_lower, show_system);
            &&& forall|r: int| 0 <= r < rows.len() ==> {
                let i = row_index(#[trigger] rows[r]);
                &&& 0 <= i < gs.len()
                &&& picker_shows(gs[i], filter_lower, show_system)
                &&& (rows[r] is Group <==> gs[i].entries.len() > 1)
            }
            &&& forall|r: int, q: int| 0 <= r < q < rows.len() ==> row_index(#[trigger] rows[r]) < row_index(#[trigger] rows[q])
            &&& forall|i: int| 0 <= i < gs.len() && picker_shows(#[trigger] gs[i], filter_lower, show_system)
                ==> exists|r: int| 0 <= r < rows.len() && row_index(#[trigger] rows[r]) == i
        }),
    decreases gs.len(),
{
    if gs.len() > 0 {
        let d = gs.drop_last();
        law_picker_rows(d, filter_lower, show_system);
        let n = gs.len() - 1;
        let g = gs[n];
        let rest = spec_picker_rows(d, filter_lower, show_system);
        let rows = spec_picker_rows(gs, filter_lower, show_system);
        assert(d.len() == n);
        assert((n as usize) as int == n);
        assert forall|r: int| 0 <= r < rest.len() implies row_index(#[trigger] rest[r]) < n by {}
        assert(is_picker_system(g) ==> !(forall|e: int| 0 <= e < g.entries.len()
            ==> (#[trigger] g.entries[e]).pid >= 1000 && !g.entries[e].is_kernel));
        assert((forall|e: int| 0 <= e < g.entries.len()
            ==> (#[trigger] g.entries[e]).pid >= 1000 && !g.entries[e].is_kernel) ==> !is_picker_system(g)) by {
            if is_picker_system(g) {
                let e = choose|e: int| 0 <= e < g.entries.len() && ((#[trigger] g.entries[e]).pid < 1000 || g.entries[e].is_kernel);
            }
        }
        assert(group_listed(g, filter_lower, show_system) && g.entries.len() > 0
            <==> picker_shows(g, filter_lower, show_system));
        assert forall|r: int| 0 <= r < rows.len() implies {
            let i = row_index(#[trigger] rows[r]);
            &&& 0 <= i < gs.len()
            &&& picker_shows(gs[i], filter_lower, show_system)
            &&& (rows[r] is Group <==> gs[i].entries.len() > 1)
        } by {
            if r < rest.len() {
                assert(rows[r] == rest[r]);
                assert(gs[row_index(rest[r])] == d[row_index(rest[r])]);
            }
        }
        assert forall|i: int| 0 <= i < gs.len() && picker_shows(#[trigger] gs[i], filter_lower, show_system)
            implies exists|r: int| 0 <= r < rows.len() && row_index(#[trigger] rows[r]) == i by {
            if i < n {
                assert(gs[i] == d[i]);
                assert(picker_shows(d[i], filter_lower, show_system));
                let r = choose|r: int| 0 <= r < rest.len() && row_index(#[trigger] rest[r]) == i;
                assert(rows[r] == rest[r]);
            } else {
                assert(row_index(rows[rows.len() - 1]) == n);
            }
        }
    }
}

/// A target card reads back the pid its pid line shows: the text after the
/// line's colon, trimmed, is "ALL" for a name-wide target and otherwise parses
/// back to the pid; so the card shows its group's total or its process's ticks.
pub proof fn law_card_reads_its_label(gs: Seq<GroupModel>, name: Seq<char>, pid: u32)
    ensures
        spec_card_ticks(gs, name, if pid == 0 { "PID: ALL"@ } else { "PID: "@ + spec_decimal(pid as nat) })
            == if pid == 0 { first_named_total(gs, name) } else { first_pid_ticks(gs, pid) },
{
    reveal_strlit("PID: ALL");
    reveal_strlit("PID: ");
    reveal_strlit("ALL");
    reveal_with_fuel(spec_after_last, 5);
    reveal_with_fuel(crate::text::trim_left, 3);
    reveal_with_fuel(crate::text::trim_right, 3);
    if pid == 0 {
        let l = "PID: ALL"@;
        assert(l =~= seq!['P', 'I', 'D', ':', ' ', 'A', 'L', 'L']);
        assert(l.drop_last().drop_last().drop_last().drop_last() =~= seq!['P', 'I', 'D', ':']);
        assert(spec_after_last(l, ':') =~= seq![' ', 'A', 'L', 'L']);
        let t = seq![' ', 'A', 'L', 'L'];
        assert(t.drop_first() =~= seq!['A', 'L', 'L']);
        assert(spec_trim(t) =~= "ALL"@);
    } else {
        let d = spec_decimal(pid as nat);
        crate::text::lemma_decimal_reads_back(pid as nat);
        crate::text::lemma_parse_decimal(pid);
        let head = "PID: "@;
        assert(head =~= seq!['P', 'I', 'D', ':', ' ']);
        assert(spec_after_last(head, ':') =~= seq![' ']);
        assert forall|i: int| 0 <= i < d.len() implies d[i] != ':' by {
            assert(crate::text::is_digit(d[i]));
        }
        crate::text::lemma_after_last_append(head, d, ':');
        let t = seq![' '] + d;
        assert(spec_after_last(head + d, ':') == t);
        assert(t.drop_first() =~= d);
        assert(crate::text::trim_left(t) == crate::text::trim_left(d));
        assert(crate::text::is_digit(d[0]));
        assert(crate::text::trim_left(d) == d);
        assert(spec_trim(t) == d);
        assert(d != "ALL"@) by {
            assert(crate::text::is_digit(d[0]));
            assert("ALL"@[0] == 'A');
        }
    }
}

} // verus!
