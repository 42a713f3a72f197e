use vstd::prelude::*;
use crate::text::{chars_of, ends_with, starts_with};

verus! {

broadcast use vstd::string::group_string_axioms;

/// Bounds `[start, end)` of the non-empty pieces of `s` between slashes, in order.
pub open spec fn seg_bounds(s: Seq<char>) -> Seq<(int, int)>
    decreases s.len(),
{
    if s.len() == 0 {
        Seq::empty()
    } else {
        let t = seg_bounds(s.drop_last());
        let i = s.len() - 1;
        if s[i] == '/' {
            t
        } else if i > 0 && s[i - 1] != '/' {
            t.update(t.len() - 1, (t.last().0, i + 1))
        } else {
            t.push((i, i + 1))
        }
    }
}

/// The non-empty pieces of `s` between slashes, without the `.` pieces.
pub open spec fn normal_segments(s: Seq<char>) -> Seq<Seq<char>> {
    seg_bounds(s).map_values(|b: (int, int)| s.subrange(b.0, b.1)).filter(|w: Seq<char>| w != seq!['.'])
}

/// The components of a Unix path as `Path::components` yields them: the root
/// (written "/") when the path is absolute, a leading "." when a relative path
/// starts with it, then the pieces between slashes other than "." (".." stays).
pub open spec fn spec_components(s: Seq<char>) -> Seq<Seq<char>> {
    if s.len() > 0 && s[0] == '/' {
        seq![seq!['/']] + normal_segments(s)
    } else if s.len() > 0 && s[0] == '.' && (s.len() == 1 || s[1] == '/') {
        seq![seq!['.']] + normal_segments(s)
    } else {
        normal_segments(s)
    }
}

pub open spec fn texts(ws: Seq<String>) -> Seq<Seq<char>> {
    ws.map_values(|w: String| w@)
}

/// The pieces of `s` between slashes, without empty and "." pieces.
fn segments(s: &str) -> (r: Vec<String>)
    ensures
        texts(r@) == normal_segments(s@),
{
    let v = chars_of(s);
    let n = v.len();
    let mut starts: Vec<usize> = Vec::new();
    let mut ends: Vec<usize> = Vec::new();
    let mut i: usize = 0;
    proof {
        assert(v@.take(0) =~= Seq::<char>::empty());
    }
    while i < n
        invariant
            i <= n,
            n == v@.len(),
            starts@.len() == ends@.len(),
            starts@.len() == seg_bounds(v@.take(i as int)).len(),
            forall|k: int| 0 <= k < starts@.len() ==> (#[trigger] seg_bounds(v@.take(i as int))[k]) == (starts@[k] as int, ends@[k] as int),
            forall|k: int| 0 <= k < starts@.len() ==> #[trigger] starts@[k] < ends@[k] <= i as int,
            i > 0 && v@[i - 1] != '/' ==> starts@.len() > 0 && ends@[ends@.len() - 1] == i,
        decreases n - i,
    {
        let ghost t = seg_bounds(v@.take(i as int));
        proof {
            assert(v@.take(i + 1).drop_last() =~= v@.take(i as int));
            assert(v@.take(i + 1)[i as int] == v@[i as int]);
            if i > 0 {
                assert(v@.take(i + 1)[i - 1] == v@[i - 1]);
            }
        }
        if v[i] == '/' {
            proof {
                assert forall|k: int| 0 <= k < starts@.len() implies #[trigger] starts@[k] < ends@[k] <= i + 1 by {}
            }
        } else if i > 0 && v[i - 1] != '/' {
            let last = ends.len() - 1;
            let ghost old_ends = ends@;
            proof {
                assert(starts@[last as int] < old_ends[last as int]);
            }
            ends.set(last, i + 1);
            proof {
                assert forall|k: int| 0 <= k < starts@.len() implies #[trigger] starts@[k] < ends@[k] <= i + 1 by {
                    if k != last {
                        assert(ends@[k] == old_ends[k]);
                    }
                }
                let nt = seg_bounds(v@.take(i + 1));
                assert(nt == t.update(t.len() - 1, (t.last().0, i + 1)));
                assert forall|k: int| 0 <= k < starts@.len() implies (#[trigger] nt[k]) == (starts@[k] as int, ends@[k] as int) by {
                    if k < last {
                        assert(nt[k] == t[k]);
                    }
                }
            }
        } else {
            let ghost old_starts = starts@;
            let ghost old_ends = ends@;
            starts.push(i);
            ends.push(i + 1);
            proof {
                assert forall|k: int| 0 <= k < starts@.len() implies #[trigger] starts@[k] < ends@[k] <= i + 1 by {
                    if k < old_starts.len() {
                        assert(starts@[k] == old_starts[k] && ends@[k] == old_ends[k]);
                    }
                }
                let nt = seg_bounds(v@.take(i + 1));
                assert(nt == t.push((i as int, i + 1)));
                assert forall|k: int| 0 <= k < starts@.len() implies (#[trigger] nt[k]) == (starts@[k] as int, ends@[k] as int) by {
                    if k < t.len() {
                        assert(nt[k] == t[k]);
                    }
                }
            }
        }
        let ghost prev_i = i;
        i = i + 1;
        proof {
            assert(forall|k: int| 0 <= k < starts@.len() ==> #[trigger] starts@[k] < ends@[k] <= prev_i + 1);
        }
    }
    proof {
        assert(v@.take(n as int) =~= v@);
    }
    let ghost all = seg_bounds(v@).map_values(|b: (int, int)| v@.subrange(b.0, b.1));
    let ghost keep = |w: Seq<char>| w != seq!['.'];
    let mut segs: Vec<String> = Vec::new();
    let mut k: usize = 0;
    proof {
        reveal_with_fuel(Seq::filter, 1);
        assert(all.take(0) =~= Seq::<Seq<char>>::empty());
        assert(texts(segs@) =~= Seq::<Seq<char>>::empty());
    }
    while k < starts.len()
        invariant
            k <= starts@.len(),
            n == v@.len(),
            v@ == s@,
            starts@.len() == ends@.len(),
            starts@.len() == seg_bounds(v@).len(),
            all == seg_bounds(v@).map_values(|b: (int, int)| v@.subrange(b.0, b.1)),
            keep == (|w: Seq<char>| w != seq!['.']),
            forall|q: int| 0 <= q < starts@.len() ==> (#[trigger] seg_bounds(v@)[q]) == (starts@[q] as int, ends@[q] as int),
            forall|q: int| 0 <= q < starts@.len() ==> #[trigger] starts@[q] < ends@[q] <= n,
            texts(segs@) == all.take(k as int).filter(keep),
        decreases starts.len() - k,
    {
        let w = s.substring_char(starts[k], ends[k]);
        proof {
            assert(all[k as int] == w@);
            assert(all.take(k + 1) =~= all.take(k as int).push(w@));
            all.take(k as int).lemma_filter_push(w@, keep);
        }
        let is_dot = w.unicode_len() == 1 && w.get_char(0) == '.';
        proof {
            if w@.len() == 1 && w@[0] == '.' {
                assert(w@ =~= seq!['.']);
            }
        }
        if !is_dot {
            let ghost before = segs@;
            segs.push(w.to_owned());
            proof {
                assert(texts(segs@) =~= texts(before).push(w@));
            }
        }
        k = k + 1;
    }
    proof {
        assert(all.take(k as int) =~= all);
    }
    segs
}

/// The components of a Unix path (see `spec_components`).
pub fn components(s: &str) -> (r: Vec<String>)
    ensures
        texts(r@) == spec_components(s@),
{
    let v = chars_of(s);
    let segs = segments(s);
    let mut r: Vec<String> = Vec::new();
    proof {
        reveal_strlit("/");
        reveal_strlit(".");
    }
    if v.len() > 0 && v[0] == '/' {
        let root = "/".to_owned();
        assert(root@ =~= seq!['/']);
        r.push(root);
        proof {
            assert(texts(r@)[0] == r@[0]@);
            assert(texts(r@) =~= seq![seq!['/']]);
        }
    } else if v.len() > 0 && v[0] == '.' && (v.len() == 1 || v[1] == '/') {
        let cur = ".".to_owned();
        assert(cur@ =~= seq!['.']);
        r.push(cur);
        proof {
            assert(texts(r@)[0] == r@[0]@);
            assert(texts(r@) =~= seq![seq!['.']]);
        }
    } else {
        proof {
            assert(texts(r@) =~= Seq::<Seq<char>>::empty());
        }
    }
    let ghost head = texts(r@);
    let mut i: usize = 0;
    while i < segs.len()
        invariant
            i <= segs@.len(),
            texts(r@) == head + texts(segs@).take(i as int),
        decreases segs.len() - i,
    {
        let ghost before = r@;
        r.push(segs[i].clone());
        proof {
            assert(texts(r@) =~= texts(before).push(segs@[i as int]@));
            assert(texts(segs@).take(i + 1) =~= texts(segs@).take(i as int).push(segs@[i as int]@));
        }
        i = i + 1;
    }
    proof {
        assert(texts(segs@).take(i as int) =~= texts(segs@));
        assert(texts(r@) =~= spec_components(s@));
    }
    r
}

/// `a` and `b` name the same path (`Path`'s `==` compares components).
pub open spec fn spec_same_path(a: Seq<char>, b: Seq<char>) -> bool {
    spec_components(a) == spec_components(b)
}

/// `p` lies under `base` (as `Path::starts_with`: whole components).
pub open spec fn spec_path_starts_with(p: Seq<char>, base: Seq<char>) -> bool {
    spec_components(base).is_prefix_of(spec_components(p))
}

fn strings_eq_prefix(a: &Vec<String>, b: &Vec<String>) -> (r: bool)
    ensures
        r == texts(a@).is_prefix_of(texts(b@)),
{
    if a.len() > b.len() {
        return false;
    }
    let mut i: usize = 0;
    while i < a.len()
        invariant
            i <= a@.len() <= b@.len(),
            forall|k: int| 0 <= k < i ==> texts(a@)[k] == texts(b@)[k],
        decreases a.len() - i,
    {
        if !(a[i] == b[i]) {
            assert(texts(a@)[i as int] != texts(b@)[i as int]);
            return false;
        }
        i = i + 1;
    }
    true
}

/// Whether two paths are the same, component by component.
pub fn same_path(a: &str, b: &str) -> (r: bool)
    ensures
        r == spec_same_path(a@, b@),
{
    let ca = components(a);
    let cb = components(b);
    let r = ca.len() == cb.len() && strings_eq_prefix(&ca, &cb);
    proof {
        assert(texts(ca@).len() == ca@.len() && texts(cb@).len() == cb@.len());
        if r {
            assert(texts(ca@) =~= texts(cb@));
        } else if texts(ca@) == texts(cb@) {
            assert(texts(ca@).is_prefix_of(texts(cb@)));
        }
    }
    r
}

/// Whether `p` lies under `base`, whole component by whole component.
pub fn path_starts_with(p: &str, base: &str) -> (r: bool)
    ensures
        r == spec_path_starts_with(p@, base@),
{
    let cp = components(p);
    let cb = components(base);
    strings_eq_prefix(&cb, &cp)
}

/// The program runs from a system location: its executable lies under
/// `/usr/bin` or `/usr/local/bin`. An unknown executable path counts as not.
pub fn is_system_install(current_exe: Option<&str>) -> (r: bool)
    ensures
        r == match current_exe {
            Some(exe) => spec_path_starts_with(exe@, "/usr/bin"@) || spec_path_starts_with(exe@, "/usr/local/bin"@),
            None => false,
        },
{
    match current_exe {
        Some(exe) => path_starts_with(exe, "/usr/bin") || path_starts_with(exe, "/usr/local/bin"),
        None => false,
    }
}

/// `rel` appended to `base` as `PathBuf::push` does on Unix: an absolute `rel`
/// replaces `base`; otherwise a slash goes between them unless `base` is empty
/// or already ends with one.
pub open spec fn spec_join(base: Seq<char>, rel: Seq<char>) -> Seq<char> {
    if rel.len() > 0 && rel[0] == '/' {
        rel
    } else if base.len() == 0 || base.last() == '/' {
        base + rel
    } else {
        base + seq!['/'] + rel
    }
}

/// Joins a path and a further path.
pub fn join(base: &str, rel: &str) -> (r: String)
    ensures
        r@ == spec_join(base@, rel@),
{
    proof {
        reveal_strlit("/");
    }
    let rv = chars_of(rel);
    if rv.len() > 0 && rv[0] == '/' {
        return rel.to_owned();
    }
    let bv = chars_of(base);
    let mut r = base.to_owned();
    if !(bv.len() == 0 || bv[bv.len() - 1] == '/') {
        r.append("/");
    }
    r.append(rel);
    proof {
        assert("/"@ =~= seq!['/']);
    }
    r
}

/// Where the program puts its files for the current user.
pub struct InstallLayout {
    /// The icon theme root whose cache is refreshed.
    pub icon_theme_dir: String,
    pub icons_dir: String,
    pub icon_file: String,
    pub bin_dir: String,
    pub target_binary: String,
    pub applications_dir: String,
    pub desktop_file: String,
}

/// The layout under the user's data directory and home directory.
pub fn install_layout(home: &str, data: &str) -> (l: InstallLayout)
    ensures
        l.icon_theme_dir@ == spec_join(data@, "icons/hicolor"@),
        l.icons_dir@ == spec_join(data@, "icons/hicolor/256x256/apps"@),
        l.icon_file@ == spec_join(spec_join(data@, "icons/hicolor/256x256/apps"@), "dev.agzes.lbs.png"@),
        l.bin_dir@ == spec_join(home@, ".local/bin"@),
        l.target_binary@ == spec_join(spec_join(home@, ".local/bin"@), "lbs"@),
        l.applications_dir@ == spec_join(data@, "applications"@),
        l.desktop_file@ == spec_join(spec_join(data@, "applications"@), "dev.agzes.lbs.desktop"@),
{
    let icons_dir = join(data, "icons/hicolor/256x256/apps");
    let icon_file = join(icons_dir.as_str(), "dev.agzes.lbs.png");
    let bin_dir = join(home, ".local/bin");
    let target_binary = join(bin_dir.as_str(), "lbs");
    let applications_dir = join(data, "applications");
    let desktop_file = join(applications_dir.as_str(), "dev.agzes.lbs.desktop");
    InstallLayout {
        icon_theme_dir: join(data, "icons/hicolor"),
        icons_dir,
        icon_file,
        bin_dir,
        target_binary,
        applications_dir,
        desktop_file,
    }
}

/// The desktop entry that the "installed" check looks for.
pub fn installed_desktop_file(data: &str) -> (r: String)
    ensures
        r@ == spec_join(data@, "applications/dev.agzes.lbs.desktop"@),
{
    join(data, "applications/dev.agzes.lbs.desktop")
}

/// The directory of the settings file.
pub fn config_dir_path(config: &str) -> (r: String)
    ensures
        r@ == spec_join(config@, "lbs"@),
{
    join(config, "lbs")
}

/// The settings file.
pub fn config_file_path(config: &str) -> (r: String)
    ensures
        r@ == spec_join(spec_join(config@, "lbs"@), "config.json"@),
{
    let d = config_dir_path(config);
    join(d.as_str(), "config.json")
}

/// Whether the running binary must be copied over the user's copy: when there
/// is no copy yet, when a size cannot be read, or when the sizes differ.
pub fn should_copy_binary(target_exists: bool, current_len: Option<u64>, target_len: Option<u64>) -> (r: bool)
    ensures
        r == (!target_exists || match (current_len, target_len) {
            (Some(a), Some(b)) => a != b,
            _ => true,
        }),
{
    if !target_exists {
        return true;
    }
    match (current_len, target_len) {
        (Some(a), Some(b)) => a != b,
        _ => true,
    }
}

/// The start of the desktop entry, up to the program path.
pub open spec fn entry_head() -> Seq<char> {
    "[Desktop Entry]\nName=Linux Battle Shaper\nComment=CPU Limiter with universal focus support\nExec="@
}

/// The end of the desktop entry, after the icon path.
pub open spec fn entry_tail() -> Seq<char> {
    "\nTerminal=false\nType=Application\nCategories=Utility;System;\nStartupNotify=true\n"@
}

/// The desktop entry that starts `exec` with the icon `icon`.
pub fn desktop_entry(exec: &str, icon: &str) -> (r: String)
    ensures
        r@ == entry_head() + exec@ + "\nIcon="@ + icon@ + entry_tail(),
{
    let mut r = "[Desktop Entry]\nName=Linux Battle Shaper\nComment=CPU Limiter with universal focus support\nExec=".to_owned();
    r.append(exec);
    r.append("\nIcon=");
    r.append(icon);
    r.append("\nTerminal=false\nType=Application\nCategories=Utility;System;\nStartupNotify=true\n");
    r
}

/// One file or directory that uninstalling removes when it exists.
pub struct Removal {
    pub path: String,
    pub is_dir: bool,
}

pub open spec fn removals_model(rs: Seq<Removal>) -> Seq<(Seq<char>, bool)> {
    rs.map_values(|r: Removal| (r.path@, r.is_dir))
}

/// What uninstalling removes: the user's binary, desktop entry and icon, and,
/// when the configuration directory is known, the environment file and the
/// settings directory. Without a home or data directory nothing is removed.
pub open spec fn spec_uninstall_plan(home: Seq<char>, data: Seq<char>, config: Option<Seq<char>>) -> Seq<(Seq<char>, bool)> {
    let base = seq![
        (spec_join(home, ".local/bin/lbs"@), false),
        (spec_join(data, "applications/dev.agzes.lbs.desktop"@), false),
        (spec_join(data, "icons/hicolor/256x256/apps/dev.agzes.lbs.png"@), false),
    ];
    match config {
        Some(c) => base + seq![(spec_join(c, "environment.d/10-lbs.conf"@), false), (spec_join(c, "lbs"@), true)],
        None => base,
    }
}

/// The things to remove when uninstalling; `None` when the home or the data
/// directory is unknown (then uninstalling fails).
pub fn uninstall_plan(home: Option<&str>, data: Option<&str>, config: Option<&str>) -> (r: Option<Vec<Removal>>)
    ensures
        match (home, data) {
            (Some(h), Some(d)) => r is Some && removals_model(r->0@) == spec_uninstall_plan(h@, d@, match config {
                Some(c) => Some(c@),
                None => None,
            }),
            _ => r is None,
        },
{
    let h = match home {
        Some(h) => h,
        None => return None,
    };
    let d = match data {
        Some(d) => d,
        None => return None,
    };
    let mut v: Vec<Removal> = Vec::new();
    v.push(Removal { path: join(h, ".local/bin/lbs"), is_dir: false });
    v.push(Removal { path: join(d, "applications/dev.agzes.lbs.desktop"), is_dir: false });
    v.push(Removal { path: join(d, "icons/hicolor/256x256/apps/dev.agzes.lbs.png"), is_dir: false });
    match config {
        Some(c) => {
            v.push(Removal { path: join(c, "environment.d/10-lbs.conf"), is_dir: false });
            v.push(Removal { path: join(c, "lbs"), is_dir: true });
        },
        None => {},
    }
    proof {
        assert(removals_model(v@) =~= spec_uninstall_plan(h@, d@, match config {
            Some(c) => Some(c@),
            None => None,
        }));
    }
    Some(v)
}

} // verus!
