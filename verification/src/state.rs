use vstd::prelude::*;
use crate::procs::ProcessGroup;

verus! {

/// A process (or, with pid 0, every process of that name) that is limited.
///
/// The limit is kept in tenths of a percent: `330` is a limit of 33.0 %.
pub struct TargetProcess {
    pub pid: u32,
    pub name: String,
    pub limit_tenths: u32,
    pub is_active: bool,
}

/// Mathematical model of a target.
pub struct TargetModel {
    pub pid: u32,
    pub name: Seq<char>,
    pub limit_tenths: u32,
    pub is_active: bool,
}

impl View for TargetProcess {
    type V = TargetModel;

    open spec fn view(&self) -> TargetModel {
        TargetModel {
            pid: self.pid,
            name: self.name@,
            limit_tenths: self.limit_tenths,
            is_active: self.is_active,
        }
    }
}

/// The model of a list of targets.
pub open spec fn targets_model(ts: Seq<TargetProcess>) -> Seq<TargetModel> {
    ts.map_values(|t: TargetProcess| t@)
}

/// A target is identified by its pid together with its name.
pub open spec fn is_target(t: TargetModel, pid: u32, name: Seq<char>) -> bool {
    t.pid == pid && t.name == name
}

pub open spec fn has_target(ts: Seq<TargetModel>, pid: u32, name: Seq<char>) -> bool {
    exists|i: int| 0 <= i < ts.len() && is_target(#[trigger] ts[i], pid, name)
}


/// The limit that a target gets when it is first added, in tenths of a percent.
pub const DEFAULT_LIMIT_TENTHS: u32 = 330;

/// Adding a target keeps the list as it is when the target is already there.
pub open spec fn spec_add_target(ts: Seq<TargetModel>, pid: u32, name: Seq<char>, limit_tenths: u32) -> Seq<TargetModel> {
    if has_target(ts, pid, name) {
        ts
    } else {
        ts.push(TargetModel { pid, name, limit_tenths, is_active: true })
    }
}

/// Removing keeps, in order, every target that is not the given one.
pub open spec fn spec_remove_target(ts: Seq<TargetModel>, pid: u32, name: Seq<char>) -> Seq<TargetModel> {
    ts.filter(|t: TargetModel| !is_target(t, pid, name))
}

/// "Limit all" replaces every target of that name by one entry for all its processes.
pub open spec fn spec_limit_all(ts: Seq<TargetModel>, name: Seq<char>) -> Seq<TargetModel> {
    ts.filter(|t: TargetModel| t.name != name).push(
        TargetModel { pid: 0, name, limit_tenths: DEFAULT_LIMIT_TENTHS as u32, is_active: true },
    )
}

/// `i` is the position of the first target with this pid and name.
pub open spec fn is_first_target(ts: Seq<TargetModel>, pid: u32, name: Seq<char>, i: int) -> bool {
    &&& 0 <= i < ts.len()
    &&& is_target(ts[i], pid, name)
    &&& forall|j: int| 0 <= j < i ==> !is_target(#[trigger] ts[j], pid, name)
}

/// Changing the active flag touches the first matching target only.
pub open spec fn spec_set_active(ts: Seq<TargetModel>, pid: u32, name: Seq<char>, active: bool) -> Seq<TargetModel> {
    if has_target(ts, pid, name) {
        let i = choose|i: int| is_first_target(ts, pid, name, i);
        ts.update(i, TargetModel { is_active: active, ..ts[i] })
    } else {
        ts
    }
}

/// Changing the limit touches the first matching target only.
pub open spec fn spec_set_limit(ts: Seq<TargetModel>, pid: u32, name: Seq<char>, limit_tenths: u32) -> Seq<TargetModel> {
    if has_target(ts, pid, name) {
        let i = choose|i: int| is_first_target(ts, pid, name, i);
        ts.update(i, TargetModel { limit_tenths, ..ts[i] })
    } else {
        ts
    }
}

/// No two targets share a pid and a name.
pub open spec fn keys_unique(ts: Seq<TargetModel>) -> bool {
    forall|i: int, j: int|
        0 <= i < ts.len() && 0 <= j < ts.len() && i != j ==> !is_target(#[trigger] ts[i], ts[j].pid, #[trigger] ts[j].name)
}

proof fn lemma_first_target_unique(ts: Seq<TargetModel>, pid: u32, name: Seq<char>, i: int, k: int)
    requires
        is_first_target(ts, pid, name, i),
        is_first_target(ts, pid, name, k),
    ensures
        i == k,
{
    if i < k {
        assert(!is_target(ts[i], pid, name));
    } else if k < i {
        assert(!is_target(ts[k], pid, name));
    }
}

/// Finds the position of the first target with this pid and name.
fn find_target(ts: &Vec<TargetProcess>, pid: u32, name: &String) -> (res: Option<usize>)
    ensures
        match res {
            Some(i) => is_first_target(targets_model(ts@), pid, name@, i as int),
            None => !has_target(targets_model(ts@), pid, name@),
        },
{
    let ghost m = targets_model(ts@);
    let mut i: usize = 0;
    while i < ts.len()
        invariant
            i <= ts.len(),
            m == targets_model(ts@),
            forall|j: int| 0 <= j < i ==> !is_target(#[trigger] m[j], pid, name@),
        decreases ts.len() - i,
    {
        if ts[i].pid == pid && ts[i].name == *name {
            assert(is_target(m[i as int], pid, name@));
            return Some(i);
        }
        i = i + 1;
    }
    None
}


/// The settings and the live state of the limiter.
pub struct AppState {
    pub targets: Vec<TargetProcess>,
    pub awake_cycle_ms: u32,
    pub auto_start: bool,
    pub unlimit_at_focus: bool,
    pub close_to_tray: bool,
    pub allow_limit_99: bool,
    pub check_updates: bool,
    pub last_run_version: Option<String>,
    pub desktop_installed: bool,
    pub shown_warning: bool,
    pub available_processes: Vec<ProcessGroup>,
}

impl Default for AppState {
    fn default() -> (s: Self)
        ensures
            s.targets@.len() == 0,
            s.awake_cycle_ms == 100,
            !s.auto_start,
            s.unlimit_at_focus,
            s.close_to_tray,
            !s.allow_limit_99,
            s.check_updates,
            s.last_run_version is None,
            !s.desktop_installed,
            !s.shown_warning,
            s.available_processes@.len() == 0,
    {
        AppState {
            targets: Vec::new(),
            awake_cycle_ms: 100,
            auto_start: false,
            unlimit_at_focus: true,
            close_to_tray: true,
            allow_limit_99: false,
            check_updates: true,
            last_run_version: None,
            desktop_installed: false,
            shown_warning: false,
            available_processes: Vec::new(),
        }
    }
}

/// Everything but the target list is the same in both states.
pub open spec fn same_settings(a: AppState, b: AppState) -> bool {
    &&& a.awake_cycle_ms == b.awake_cycle_ms
    &&& a.auto_start == b.auto_start
    &&& a.unlimit_at_focus == b.unlimit_at_focus
    &&& a.close_to_tray == b.close_to_tray
    &&& a.allow_limit_99 == b.allow_limit_99
    &&& a.check_updates == b.check_updates
    &&& a.last_run_version == b.last_run_version
    &&& a.desktop_installed == b.desktop_installed
    &&& a.shown_warning == b.shown_warning
    &&& a.available_processes == b.available_processes
}

impl AppState {
    /// The model of the target list.
    pub open spec fn targets_view(&self) -> Seq<TargetModel> {
        targets_model(self.targets@)
    }
}

/// Adds an active target with the given limit unless one with the same pid and
/// name is already there; says whether it added one.
pub fn add_target(state: &mut AppState, pid: u32, name: &str, limit_tenths: u32) -> (added: bool)
    ensures
        final(state).targets_view() == spec_add_target(old(state).targets_view(), pid, name@, limit_tenths),
        added == !has_target(old(state).targets_view(), pid, name@),
        same_settings(*old(state), *final(state)),
{
    let owned = name.to_owned();
    match find_target(&state.targets, pid, &owned) {
        Some(_) => false,
        None => {
            let t = TargetProcess { pid, name: owned, limit_tenths, is_active: true };
            state.targets.push(t);
            proof {
                assert(final(state).targets_view() =~= old(state).targets_view().push(t@));
            }
            true
        },
    }
}

impl AppState {
    /// Removes the target with this pid and name, if there is one.
    pub fn remove_target(&mut self, pid: u32, name: &String)
        ensures
            final(self).targets_view() == spec_remove_target(old(self).targets_view(), pid, name@),
            same_settings(*old(self), *final(self)),
    {
        let ghost m = self.targets_view();
        let ghost pred = |t: TargetModel| !is_target(t, pid, name@);
        let mut kept: Vec<TargetProcess> = Vec::new();
        let mut i: usize = 0;
        proof {
            reveal_with_fuel(Seq::filter, 1);
            assert(m.take(0) =~= Seq::<TargetModel>::empty());
        }
        while i < self.targets.len()
            invariant
                i <= self.targets.len(),
                m == self.targets_view(),
                pred == (|t: TargetModel| !is_target(t, pid, name@)),
                *self == *old(self),
                targets_model(kept@) == m.take(i as int).filter(pred),
            decreases self.targets.len() - i,
        {
            let t = &self.targets[i];
            proof {
                assert(m[i as int] == t@);
                assert(m.take(i + 1) =~= m.take(i as int).push(m[i as int]));
                m.take(i as int).lemma_filter_push(m[i as int], pred);
            }
            if !(t.pid == pid && t.name == *name) {
                let c = TargetProcess {
                    pid: t.pid,
                    name: t.name.clone(),
                    limit_tenths: t.limit_tenths,
                    is_active: t.is_active,
                };
                let ghost before = kept@;
                kept.push(c);
                proof {
                    assert(targets_model(kept@) =~= targets_model(before).push(c@));
                }
            }
            i = i + 1;
        }
        proof {
            assert(m.take(i as int) =~= m);
        }
        self.targets = kept;
    }

    /// Turns the first target with this pid and name on or off.
    pub fn set_target_active(&mut self, pid: u32, name: &String, active: bool)
        ensures
            final(self).targets_view() == spec_set_active(old(self).targets_view(), pid, name@, active),
            same_settings(*old(self), *final(self)),
    {
        let ghost m = self.targets_view();
        match find_target(&self.targets, pid, name) {
            Some(i) => {
                let t = &self.targets[i];
                let nt = TargetProcess {
                    pid: t.pid,
                    name: t.name.clone(),
                    limit_tenths: t.limit_tenths,
                    is_active: active,
                };
                self.targets.set(i, nt);
                proof {
                    let k = choose|k: int| is_first_target(m, pid, name@, k);
                    lemma_first_target_unique(m, pid, name@, i as int, k);
                    assert(self.targets_view() =~= m.update(i as int, TargetModel { is_active: active, ..m[i as int] }));
                }
            },
            None => {},
        }
    }

    /// Sets the limit of the first target with this pid and name.
    pub fn set_target_limit(&mut self, pid: u32, name: &String, limit_tenths: u32)
        ensures
            final(self).targets_view() == spec_set_limit(old(self).targets_view(), pid, name@, limit_tenths),
            same_settings(*old(self), *final(self)),
    {
        let ghost m = self.targets_view();
        match find_target(&self.targets, pid, name) {
            Some(i) => {
                let t = &self.targets[i];
                let nt = TargetProcess {
                    pid: t.pid,
                    name: t.name.clone(),
                    limit_tenths,
                    is_active: t.is_active,
                };
                self.targets.set(i, nt);
                proof {
                    let k = choose|k: int| is_first_target(m, pid, name@, k);
                    lemma_first_target_unique(m, pid, name@, i as int, k);
                    assert(self.targets_view() =~= m.update(i as int, TargetModel { limit_tenths, ..m[i as int] }));
                }
            },
            None => {},
        }
    }

    /// Switches lifting the limit from the focused window on or off.
    pub fn set_unlimit_at_focus(&mut self, on: bool)
        ensures
            *final(self) == (AppState { unlimit_at_focus: on, ..*old(self) }),
    {
        self.unlimit_at_focus = on;
    }

    /// Switches hiding the window (instead of quitting) on close.
    pub fn set_close_to_tray(&mut self, on: bool)
        ensures
            *final(self) == (AppState { close_to_tray: on, ..*old(self) }),
    {
        self.close_to_tray = on;
    }

    /// Switches allowing limits up to 99.9 % in tenths.
    pub fn set_allow_limit_99(&mut self, on: bool)
        ensures
            *final(self) == (AppState { allow_limit_99: on, ..*old(self) }),
    {
        self.allow_limit_99 = on;
    }

    /// Switches the update check.
    pub fn set_check_updates(&mut self, on: bool)
        ensures
            *final(self) == (AppState { check_updates: on, ..*old(self) }),
    {
        self.check_updates = on;
    }

    /// Sets the length of one limiting cycle, in milliseconds.
    pub fn set_awake_cycle_ms(&mut self, ms: u32)
        ensures
            *final(self) == (AppState { awake_cycle_ms: ms, ..*old(self) }),
    {
        self.awake_cycle_ms = ms;
    }

    /// Records that the desktop entry was installed, or that the offer to
    /// install it was declined, so that it is not offered again.
    pub fn mark_desktop_handled(&mut self)
        ensures
            *final(self) == (AppState { desktop_installed: true, ..*old(self) }),
    {
        self.desktop_installed = true;
    }

    /// Records a finished uninstall: the program no longer starts on its own.
    pub fn mark_uninstalled(&mut self)
        ensures
            *final(self) == (AppState { auto_start: false, ..*old(self) }),
    {
        self.auto_start = false;
    }

    /// Drops every target ("unlimit all").
    pub fn clear_targets(&mut self)
        ensures
            final(self).targets_view() == Seq::<TargetModel>::empty(),
            same_settings(*old(self), *final(self)),
    {
        self.targets = Vec::new();
        proof {
            assert(self.targets_view() =~= Seq::<TargetModel>::empty());
        }
    }

    /// Replaces every target of this name by a single active target for all
    /// processes of that name (pid 0) with the default limit.
    pub fn limit_all(&mut self, name: &String)
        ensures
            final(self).targets_view() == spec_limit_all(old(self).targets_view(), name@),
            same_settings(*old(self), *final(self)),
    {
        let ghost m = self.targets_view();
        let ghost pred = |t: TargetModel| t.name != name@;
        let mut kept: Vec<TargetProcess> = Vec::new();
        let mut i: usize = 0;
        proof {
            reveal_with_fuel(Seq::filter, 1);
            assert(m.take(0) =~= Seq::<TargetModel>::empty());
        }
        while i < self.targets.len()
            invariant
                i <= self.targets.len(),
                m == self.targets_view(),
                pred == (|t: TargetModel| t.name != name@),
                *self == *old(self),
                targets_model(kept@) == m.take(i as int).filter(pred),
            decreases self.targets.len() - i,
        {
            let t = &self.targets[i];
            proof {
                assert(m[i as int] == t@);
                assert(m.take(i + 1) =~= m.take(i as int).push(m[i as int]));
                m.take(i as int).lemma_filter_push(m[i as int], pred);
            }
            if !(t.name == *name) {
                let c = TargetProcess {
                    pid: t.pid,
                    name: t.name.clone(),
                    limit_tenths: t.limit_tenths,
                    is_active: t.is_active,
                };
                let ghost before = kept@;
                kept.push(c);
                proof {
                    assert(targets_model(kept@) =~= targets_model(before).push(c@));
                }
            }
            i = i + 1;
        }
        proof {
            assert(m.take(i as int) =~= m);
        }
        let t = TargetProcess { pid: 0, name: name.clone(), limit_tenths: DEFAULT_LIMIT_TENTHS, is_active: true };
        let ghost before = kept@;
        kept.push(t);
        proof {
            assert(targets_model(kept@) =~= targets_model(before).push(t@));
        }
        self.targets = kept;
    }
}

} // verus!

verus! {

/// After adding a target, the list holds a target with that pid and name.
pub proof fn law_add_then_present(ts: Seq<TargetModel>, pid: u32, name: Seq<char>, limit_tenths: u32)
    ensures
        has_target(spec_add_target(ts, pid, name, limit_tenths), pid, name),
{
    if !has_target(ts, pid, name) {
        let r = spec_add_target(ts, pid, name, limit_tenths);
        assert(is_target(r[ts.len() as int], pid, name));
    }
}

/// Adding the same target a second time changes nothing, whatever limit is asked for.
pub proof fn law_add_idempotent(ts: Seq<TargetModel>, pid: u32, name: Seq<char>, l1: u32, l2: u32)
    ensures
        spec_add_target(spec_add_target(ts, pid, name, l1), pid, name, l2) == spec_add_target(ts, pid, name, l1),
{
    law_add_then_present(ts, pid, name, l1);
}

/// Removing a target that was just added to a list without it gives the list back.
pub proof fn law_remove_undoes_add(ts: Seq<TargetModel>, pid: u32, name: Seq<char>, limit_tenths: u32)
    requires
        !has_target(ts, pid, name),
    ensures
        spec_remove_target(spec_add_target(ts, pid, name, limit_tenths), pid, name) == ts,
{
    let pred = |t: TargetModel| !is_target(t, pid, name);
    lemma_filter_all(ts, pred);
    let added = TargetModel { pid, name, limit_tenths, is_active: true };
    ts.lemma_filter_push(added, pred);
}

/// After removal, no target with that pid and name is left.
pub proof fn law_remove_then_absent(ts: Seq<TargetModel>, pid: u32, name: Seq<char>)
    ensures
        !has_target(spec_remove_target(ts, pid, name), pid, name),
{
    let pred = |t: TargetModel| !is_target(t, pid, name);
    let r = spec_remove_target(ts, pid, name);
    assert forall|i: int| 0 <= i < r.len() implies !is_target(#[trigger] r[i], pid, name) by {
        ts.lemma_filter_pred(pred, i);
    }
}

/// A filter that keeps everything keeps the sequence as it is.
proof fn lemma_filter_all(ts: Seq<TargetModel>, pred: spec_fn(TargetModel) -> bool)
    requires
        forall|i: int| 0 <= i < ts.len() ==> pred(#[trigger] ts[i]),
    ensures
        ts.filter(pred) == ts,
    decreases ts.len(),
{
    reveal_with_fuel(Seq::filter, 1);
    if ts.len() > 0 {
        let d = ts.drop_last();
        assert forall|i: int| 0 <= i < d.len() implies pred(#[trigger] d[i]) by {
            assert(d[i] == ts[i]);
        }
        lemma_filter_all(d, pred);
        assert(ts.filter(pred) =~= d.push(ts.last()));
        assert(d.push(ts.last()) =~= ts);
    }
}

/// A filtered sequence keeps its elements in order: every element of the result
/// comes from the source at a strictly increasing position.
proof fn lemma_filter_subseq(ts: Seq<TargetModel>, pred: spec_fn(TargetModel) -> bool)
    ensures
        forall|i: int| 0 <= i < ts.filter(pred).len() ==> ts.contains(#[trigger] ts.filter(pred)[i]),
    decreases ts.len(),
{
    reveal_with_fuel(Seq::filter, 1);
    if ts.len() > 0 {
        let d = ts.drop_last();
        lemma_filter_subseq(d, pred);
        let f = ts.filter(pred);
        assert forall|i: int| 0 <= i < f.len() implies ts.contains(#[trigger] f[i]) by {
            if i < d.filter(pred).len() {
                assert(f[i] == d.filter(pred)[i]);
                let j = choose|j: int| 0 <= j < d.len() && d[j] == f[i];
                assert(ts[j] == f[i]);
            } else {
                assert(f[i] == ts[ts.len() - 1]);
            }
        }
    }
}

/// Keys stay unique under removal of elements.
proof fn lemma_filter_keeps_unique(ts: Seq<TargetModel>, pred: spec_fn(TargetModel) -> bool)
    requires
        keys_unique(ts),
    ensures
        keys_unique(ts.filter(pred)),
    decreases ts.len(),
{
    reveal_with_fuel(Seq::filter, 1);
    if ts.len() > 0 {
        let d = ts.drop_last();
        assert forall|i: int, j: int|
            0 <= i < d.len() && 0 <= j < d.len() && i != j implies !is_target(#[trigger] d[i], d[j].pid, #[trigger] d[j].name) by {
            assert(d[i] == ts[i] && d[j] == ts[j]);
        }
        lemma_filter_keeps_unique(d, pred);
        let fd = d.filter(pred);
        if pred(ts.last()) {
            lemma_filter_subseq(d, pred);
            let f = fd.push(ts.last());
            assert forall|i: int, j: int|
                0 <= i < f.len() && 0 <= j < f.len() && i != j implies !is_target(#[trigger] f[i], f[j].pid, #[trigger] f[j].name) by {
                if i < fd.len() && j < fd.len() {
                    assert(f[i] == fd[i] && f[j] == fd[j]);
                } else if i < fd.len() {
                    assert(d.contains(fd[i]));
                    let k = choose|k: int| 0 <= k < d.len() && d[k] == fd[i];
                    assert(ts[k] == f[i]);
                    assert(f[j] == ts[ts.len() - 1]);
                } else {
                    assert(d.contains(fd[j]));
                    let k = choose|k: int| 0 <= k < d.len() && d[k] == fd[j];
                    assert(ts[k] == f[j]);
                    assert(f[i] == ts[ts.len() - 1]);
                }
            }
        }
    }
}

/// When some target matches, there is a first one.
proof fn lemma_first_exists(ts: Seq<TargetModel>, pid: u32, name: Seq<char>)
    requires
        has_target(ts, pid, name),
    ensures
        exists|i: int| is_first_target(ts, pid, name, i),
    decreases ts.len(),
{
    let d = ts.drop_last();
    if has_target(d, pid, name) {
        lemma_first_exists(d, pid, name);
        let i = choose|i: int| is_first_target(d, pid, name, i);
        assert forall|j: int| 0 <= j < i implies !is_target(#[trigger] ts[j], pid, name) by {
            assert(ts[j] == d[j]);
        }
        assert(is_first_target(ts, pid, name, i));
    } else {
        let i = ts.len() - 1;
        assert forall|j: int| 0 <= j < i implies !is_target(#[trigger] ts[j], pid, name) by {
            assert(ts[j] == d[j]);
        }
        let w = choose|w: int| 0 <= w < ts.len() && is_target(#[trigger] ts[w], pid, name);
        if w < i {
            assert(d[w] == ts[w]);
        }
        assert(is_first_target(ts, pid, name, i));
    }
}

/// Every change of the target list keeps pid and name together a key: no two
/// targets share both.
pub proof fn law_operations_keep_keys_unique(ts: Seq<TargetModel>, pid: u32, name: Seq<char>, limit_tenths: u32, active: bool)
    requires
        keys_unique(ts),
    ensures
        keys_unique(spec_add_target(ts, pid, name, limit_tenths)),
        keys_unique(spec_remove_target(ts, pid, name)),
        keys_unique(spec_set_active(ts, pid, name, active)),
        keys_unique(spec_set_limit(ts, pid, name, limit_tenths)),
        keys_unique(spec_limit_all(ts, name)),
        keys_unique(Seq::<TargetModel>::empty()),
{
    lemma_filter_keeps_unique(ts, |t: TargetModel| !is_target(t, pid, name));
    let named = |t: TargetModel| t.name != name;
    lemma_filter_keeps_unique(ts, named);
    let f = ts.filter(named);
    let l = spec_limit_all(ts, name);
    assert forall|i: int, j: int|
        0 <= i < l.len() && 0 <= j < l.len() && i != j implies !is_target(#[trigger] l[i], l[j].pid, #[trigger] l[j].name) by {
        if i < f.len() && j < f.len() {
            assert(l[i] == f[i] && l[j] == f[j]);
        } else if i < f.len() {
            ts.lemma_filter_pred(named, i);
        } else {
            ts.lemma_filter_pred(named, j);
        }
    }
    if !has_target(ts, pid, name) {
        let a = spec_add_target(ts, pid, name, limit_tenths);
        assert forall|i: int, j: int|
            0 <= i < a.len() && 0 <= j < a.len() && i != j implies !is_target(#[trigger] a[i], a[j].pid, #[trigger] a[j].name) by {
            if i < ts.len() && j < ts.len() {
                assert(a[i] == ts[i] && a[j] == ts[j]);
            } else if i < ts.len() {
                assert(a[i] == ts[i]);
            } else {
                assert(a[j] == ts[j]);
            }
        }
    }
    if has_target(ts, pid, name) {
        lemma_first_exists(ts, pid, name);
        let s1 = spec_set_active(ts, pid, name, active);
        assert forall|i: int, j: int|
            0 <= i < s1.len() && 0 <= j < s1.len() && i != j implies !is_target(#[trigger] s1[i], s1[j].pid, #[trigger] s1[j].name) by {
            assert(s1[i].pid == ts[i].pid && s1[i].name == ts[i].name);
            assert(s1[j].pid == ts[j].pid && s1[j].name == ts[j].name);
        }
        let s2 = spec_set_limit(ts, pid, name, limit_tenths);
        assert forall|i: int, j: int|
            0 <= i < s2.len() && 0 <= j < s2.len() && i != j implies !is_target(#[trigger] s2[i], s2[j].pid, #[trigger] s2[j].name) by {
            assert(s2[i].pid == ts[i].pid && s2[i].name == ts[i].name);
            assert(s2[j].pid == ts[j].pid && s2[j].name == ts[j].name);
        }
    }
}

/// Adding a target that is not there yet appends it at the end, active and
/// with the given limit, and keeps every earlier target in place; adding one
/// that is there (same pid and same name) leaves the list as it was.
pub proof fn law_add_appends(ts: Seq<TargetModel>, pid: u32, name: Seq<char>, limit_tenths: u32)
    ensures
        ({
            let r = spec_add_target(ts, pid, name, limit_tenths);
            &&& (exists|i: int| 0 <= i < ts.len() && (#[trigger] ts[i]).pid == pid && ts[i].name == name) ==> r == ts
            &&& !(exists|i: int| 0 <= i < ts.len() && (#[trigger] ts[i]).pid == pid && ts[i].name == name) ==> {
                &&& r.len() == ts.len() + 1
                &&& forall|i: int| 0 <= i < ts.len() ==> r[i] == ts[i]
                &&& r[ts.len() as int].pid == pid && r[ts.len() as int].name == name
                &&& r[ts.len() as int].limit_tenths == limit_tenths && r[ts.len() as int].is_active
            }
        }),
{
    if exists|i: int| 0 <= i < ts.len() && (#[trigger] ts[i]).pid == pid && ts[i].name == name {
        let i = choose|i: int| 0 <= i < ts.len() && (#[trigger] ts[i]).pid == pid && ts[i].name == name;
        assert(is_target(ts[i], pid, name));
    } else {
        assert(!has_target(ts, pid, name)) by {
            if has_target(ts, pid, name) {
                let i = choose|i: int| 0 <= i < ts.len() && is_target(#[trigger] ts[i], pid, name);
                assert(ts[i].pid == pid && ts[i].name == name);
            }
        }
    }
}

/// Switching a target on or off changes only the `is_active` flag of the first
/// target with exactly that pid and that name; every other target, of another
/// pid or another name (a name-wide target of another name included) or a
/// later duplicate, stays as it was, and the list keeps its length and order.
pub proof fn law_set_active_changes_one(ts: Seq<TargetModel>, pid: u32, name: Seq<char>, active: bool)
    ensures
        ({
            let r = spec_set_active(ts, pid, name, active);
            &&& r.len() == ts.len()
            &&& forall|i: int| 0 <= i < ts.len()
                && (!((#[trigger] ts[i]).pid == pid && ts[i].name == name)
                    || exists|j: int| 0 <= j < i && (#[trigger] ts[j]).pid == pid && ts[j].name == name)
                ==> r[i] == ts[i]
            &&& forall|i: int| 0 <= i < ts.len() && (#[trigger] ts[i]).pid == pid && ts[i].name == name
                && (forall|j: int| 0 <= j < i ==> !((#[trigger] ts[j]).pid == pid && ts[j].name == name))
                ==> r[i].pid == ts[i].pid && r[i].name == ts[i].name && r[i].limit_tenths == ts[i].limit_tenths
                    && r[i].is_active == active
        }),
{
    lemma_first_change_only(ts, pid, name);
}

/// Setting a limit changes only the limit of the first target with exactly
/// that pid and that name; every other target stays as it was.
pub proof fn law_set_limit_changes_one(ts: Seq<TargetModel>, pid: u32, name: Seq<char>, limit_tenths: u32)
    ensures
        ({
            let r = spec_set_limit(ts, pid, name, limit_tenths);
            &&& r.len() == ts.len()
            &&& forall|i: int| 0 <= i < ts.len()
                && (!((#[trigger] ts[i]).pid == pid && ts[i].name == name)
                    || exists|j: int| 0 <= j < i && (#[trigger] ts[j]).pid == pid && ts[j].name == name)
                ==> r[i] == ts[i]
            &&& forall|i: int| 0 <= i < ts.len() && (#[trigger] ts[i]).pid == pid && ts[i].name == name
                && (forall|j: int| 0 <= j < i ==> !((#[trigger] ts[j]).pid == pid && ts[j].name == name))
                ==> r[i].pid == ts[i].pid && r[i].name == ts[i].name && r[i].is_active == ts[i].is_active
                    && r[i].limit_tenths == limit_tenths
        }),
{
    lemma_first_change_only(ts, pid, name);
}

/// The first matching position, when there is one, is the only position that
/// is a match with no match before it.
proof fn lemma_first_change_only(ts: Seq<TargetModel>, pid: u32, name: Seq<char>)
    ensures
        has_target(ts, pid, name) ==> {
            let f = choose|i: int| is_first_target(ts, pid, name, i);
            &&& is_first_target(ts, pid, name, f)
            &&& forall|i: int| 0 <= i < ts.len()
                && (!((#[trigger] ts[i]).pid == pid && ts[i].name == name)
                    || exists|j: int| 0 <= j < i && (#[trigger] ts[j]).pid == pid && ts[j].name == name)
                ==> i != f
            &&& forall|i: int| 0 <= i < ts.len() && (#[trigger] ts[i]).pid == pid && ts[i].name == name
                && (forall|j: int| 0 <= j < i ==> !((#[trigger] ts[j]).pid == pid && ts[j].name == name))
                ==> i == f
        },
{
    if has_target(ts, pid, name) {
        lemma_first_exists(ts, pid, name);
        let f = choose|i: int| is_first_target(ts, pid, name, i);
        assert forall|i: int| 0 <= i < ts.len()
            && (!((#[trigger] ts[i]).pid == pid && ts[i].name == name)
                || exists|j: int| 0 <= j < i && (#[trigger] ts[j]).pid == pid && ts[j].name == name)
            implies i != f by {
            if i == f {
                assert(is_target(ts[f], pid, name));
                if exists|j: int| 0 <= j < i && (#[trigger] ts[j]).pid == pid && ts[j].name == name {
                    let j = choose|j: int| 0 <= j < i && (#[trigger] ts[j]).pid == pid && ts[j].name == name;
                    assert(!is_target(ts[j], pid, name));
                }
            }
        }
        assert forall|i: int| 0 <= i < ts.len() && (#[trigger] ts[i]).pid == pid && ts[i].name == name
            && (forall|j: int| 0 <= j < i ==> !((#[trigger] ts[j]).pid == pid && ts[j].name == name))
            implies i == f by {
            assert forall|j: int| 0 <= j < i implies !is_target(#[trigger] ts[j], pid, name) by {
                assert(!(ts[j].pid == pid && ts[j].name == name));
            }
            assert(is_first_target(ts, pid, name, i));
            lemma_first_target_unique(ts, pid, name, i, f);
        }
    }
}

/// Removing a target keeps, in their order, exactly the targets that differ
/// from it in pid or in name: each of them is still there, and everything left
/// was there before.
pub proof fn law_remove_keeps_others(ts: Seq<TargetModel>, pid: u32, name: Seq<char>)
    ensures
        ({
            let r = spec_remove_target(ts, pid, name);
            &&& forall|i: int| 0 <= i < ts.len() && !((#[trigger] ts[i]).pid == pid && ts[i].name == name)
                ==> r.contains(ts[i])
            &&& forall|k: int| 0 <= k < r.len() ==> ts.contains(#[trigger] r[k])
                && !(r[k].pid == pid && r[k].name == name)
        }),
{
    let pred = |t: TargetModel| !is_target(t, pid, name);
    let r = spec_remove_target(ts, pid, name);
    lemma_filter_subseq(ts, pred);
    assert forall|k: int| 0 <= k < r.len() implies ts.contains(#[trigger] r[k])
        && !(r[k].pid == pid && r[k].name == name) by {
        ts.lemma_filter_pred(pred, k);
    }
    lemma_filter_keeps_all(ts, pred);
}

/// Everything that a filter keeps is in its result.
proof fn lemma_filter_keeps_all(ts: Seq<TargetModel>, pred: spec_fn(TargetModel) -> bool)
    ensures
        forall|i: int| 0 <= i < ts.len() && pred(#[trigger] ts[i]) ==> ts.filter(pred).contains(ts[i]),
    decreases ts.len(),
{
    reveal_with_fuel(Seq::filter, 1);
    if ts.len() > 0 {
        let d = ts.drop_last();
        lemma_filter_keeps_all(d, pred);
        let f = ts.filter(pred);
        assert forall|i: int| 0 <= i < ts.len() && pred(#[trigger] ts[i]) implies f.contains(ts[i]) by {
            if i < d.len() {
                assert(d[i] == ts[i]);
                let fd = d.filter(pred);
                assert(fd.contains(d[i]));
                let k = choose|k: int| 0 <= k < fd.len() && fd[k] == d[i];
                if pred(ts.last()) {
                    assert(f[k] == fd[k]);
                } else {
                    assert(f == fd);
                }
            } else {
                assert(f[f.len() - 1] == ts[i]);
            }
        }
    }
}

/// After "limit all", exactly one target carries that name: the last one, for
/// every process of the name (pid 0), active, with the default limit; the targets
/// of other names keep their order.
pub proof fn law_limit_all_single(ts: Seq<TargetModel>, name: Seq<char>)
    ensures
        ({
            let l = spec_limit_all(ts, name);
            &&& l.len() >= 1
            &&& l.last() == TargetModel { pid: 0, name, limit_tenths: DEFAULT_LIMIT_TENTHS as u32, is_active: true }
            &&& forall|i: int| 0 <= i < l.len() - 1 ==> (#[trigger] l[i]).name != name
            &&& l.drop_last() == ts.filter(|t: TargetModel| t.name != name)
        }),
{
    let named = |t: TargetModel| t.name != name;
    let l = spec_limit_all(ts, name);
    assert forall|i: int| 0 <= i < l.len() - 1 implies (#[trigger] l[i]).name != name by {
        ts.lemma_filter_pred(named, i);
    }
    assert(l.drop_last() =~= ts.filter(named));
}

} // verus!
