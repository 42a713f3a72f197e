use vstd::prelude::*;
use std::collections::HashSet;
use vstd::std_specs::iter::IteratorSpec;
use crate::state::{AppState, TargetModel, targets_model};
use crate::focus::FocusedWindow;
use crate::procs::{GroupModel, ProcessGroup, groups_model};
use crate::state::TargetProcess;

verus! {

broadcast use vstd::std_specs::hash::group_hash_axioms;

/// The pids whose limiter is running; at most one limiter runs per pid.
pub struct LimiterRegistry {
    pids: HashSet<u32>,
}

impl View for LimiterRegistry {
    type V = Set<u32>;

    closed spec fn view(&self) -> Set<u32> {
        self.pids@
    }
}

impl LimiterRegistry {
    /// No limiter runs yet.
    pub fn new() -> (r: Self)
        ensures
            r@ == Set::<u32>::empty(),
    {
        LimiterRegistry { pids: HashSet::new() }
    }

    /// Claims the pid for a new limiter; says whether it was free (a limiter is
    /// started only then).
    pub fn try_start(&mut self, pid: u32) -> (started: bool)
        ensures
            started == !old(self)@.contains(pid),
            final(self)@ == old(self)@.insert(pid),
    {
        self.pids.insert(pid)
    }

    /// Releases the pid when its limiter ends.
    pub fn finish(&mut self, pid: u32)
        ensures
            final(self)@ == old(self)@.remove(pid),
    {
        self.pids.remove(&pid);
    }

    /// Whether a limiter runs for this pid.
    pub fn is_running(&self, pid: u32) -> (res: bool)
        ensures
            res == self@.contains(pid),
    {
        self.pids.contains(&pid)
    }

    /// Every pid with a running limiter, each once.
    pub fn running(&self) -> (res: Vec<u32>)
        ensures
            res@.to_set() == self@,
            res@.no_duplicates(),
    {
        let mut res: Vec<u32> = Vec::new();
        let ghost keys = vstd::std_specs::hash::spec_hash_keys_iter(&self.pids).remaining();
        for p in it: self.pids.iter()
            invariant
                it.seq() == keys,
                res@ == it.seq().take(it.index()).unref(),
        {
            proof {
                assert(it.seq().take(it.index() + 1).unref() =~= it.seq().take(it.index()).unref().push(*p));
            }
            res.push(*p);
        }
        proof {
            assert(res@ =~= keys.unref());
            assert(keys.unref().no_duplicates()) by {
                assert forall|i: int, j: int| 0 <= i < keys.len() && 0 <= j < keys.len() && i != j implies keys.unref()[i] != keys.unref()[j] by {
                    assert(keys[i] != keys[j]);
                }
            }
        }
        res
    }
}

/// Laws of the registry: a pid can be claimed once until it is released.
pub proof fn law_registry_claim_once(r: Set<u32>, pid: u32)
    ensures
        r.insert(pid).contains(pid),
        r.insert(pid).remove(pid).insert(pid).contains(pid),
        !r.insert(pid).remove(pid).contains(pid),
{
}

/// The limiter of `pid` (started under `name`) follows a target that names
/// this pid, or that names every process (pid 0) of this name.
pub open spec fn limits_pid(t: TargetModel, pid: u32, name: Seq<char>) -> bool {
    t.pid == pid || (t.pid == 0 && t.name == name)
}

pub open spec fn is_first_limiting(ts: Seq<TargetModel>, pid: u32, name: Seq<char>, i: int) -> bool {
    &&& 0 <= i < ts.len()
    &&& limits_pid(ts[i], pid, name)
    &&& forall|j: int| 0 <= j < i ==> !limits_pid(#[trigger] ts[j], pid, name)
}

/// What the limiter of one process does at the start of each round.
pub enum LimiterCheck {
    /// No target covers the process any more: let it run and end the limiter.
    Release,
    /// The target is switched off or its window has the focus: let the process
    /// run and look again in half a second.
    Resume,
    /// Check that the process still exists, then limit it with this limit and cycle.
    Probe { limit_tenths: u32, awake_cycle_ms: u32 },
}

/// The window of this process has the focus and the settings lift limits from it.
pub open spec fn spec_is_focused(unlimit_at_focus: bool, focused: FocusedWindow, pid: u32, name: Seq<char>) -> bool {
    unlimit_at_focus && (focused.pid == pid || focused.name@ == name)
}

pub open spec fn spec_limiter_check(state: AppState, focused: FocusedWindow, pid: u32, name: Seq<char>) -> LimiterCheck {
    let ts = targets_model(state.targets@);
    if exists|i: int| is_first_limiting(ts, pid, name, i) {
        let i = choose|i: int| is_first_limiting(ts, pid, name, i);
        if !ts[i].is_active || spec_is_focused(state.unlimit_at_focus, focused, pid, name) {
            LimiterCheck::Resume
        } else {
            LimiterCheck::Probe { limit_tenths: ts[i].limit_tenths, awake_cycle_ms: state.awake_cycle_ms }
        }
    } else {
        LimiterCheck::Release
    }
}

proof fn lemma_first_limiting_unique(ts: Seq<TargetModel>, pid: u32, name: Seq<char>, i: int, k: int)
    requires
        is_first_limiting(ts, pid, name, i),
        is_first_limiting(ts, pid, name, k),
    ensures
        i == k,
{
    if i < k {
        assert(!limits_pid(ts[i], pid, name));
    } else if k < i {
        assert(!limits_pid(ts[k], pid, name));
    }
}

/// Decides the start of one round of the limiter of `pid`, started for `name`:
/// the first target that covers the process decides.
pub fn limiter_check(state: &AppState, focused: &FocusedWindow, pid: u32, name: &String) -> (res: LimiterCheck)
    ensures
        res == spec_limiter_check(*state, *focused, pid, name@),
{
    let ghost ts = targets_model(state.targets@);
    let mut i: usize = 0;
    while i < state.targets.len()
        invariant
            i <= state.targets.len(),
            ts == targets_model(state.targets@),
            forall|j: int| 0 <= j < i ==> !limits_pid(#[trigger] ts[j], pid, name@),
        decreases state.targets.len() - i,
    {
        let t = &state.targets[i];
        proof {
            assert(ts[i as int] == t@);
        }
        if t.pid == pid || (t.pid == 0 && t.name == *name) {
            proof {
                assert(is_first_limiting(ts, pid, name@, i as int));
                let k = choose|k: int| is_first_limiting(ts, pid, name@, k);
                lemma_first_limiting_unique(ts, pid, name@, i as int, k);
            }
            let is_focused = state.unlimit_at_focus && (focused.pid == pid || focused.name == *name);
            if !t.is_active || is_focused {
                return LimiterCheck::Resume;
            } else {
                return LimiterCheck::Probe { limit_tenths: t.limit_tenths, awake_cycle_ms: state.awake_cycle_ms };
            }
        }
        i = i + 1;
    }
    proof {
        assert forall|k: int| !is_first_limiting(ts, pid, name@, k) by {
            if 0 <= k < ts.len() {
                assert(!limits_pid(ts[k], pid, name@));
            }
        }
    }
    LimiterCheck::Release
}

/// What the limiter does once it knows whether the process still exists.
#[derive(Debug, Clone, Copy, PartialEq, Eq, Structural)]
pub enum LimiterStep {
    /// The process is gone: end the limiter without signalling it.
    Forget,
    /// The limit is zero: let the process run and look again in half a second.
    Resume,
    /// Let the process run for `awake_us` microseconds (when not zero), then
    /// stop it for `sleep_us` microseconds (when not zero).
    Cycle { awake_us: u64, sleep_us: u64 },
}

/// One cycle lasts the awake cycle in microseconds.
pub open spec fn cycle_us(awake_cycle_ms: u32) -> int {
    awake_cycle_ms * 1000
}

/// The process is stopped for the limit's share of the cycle.
pub open spec fn sleep_us(awake_cycle_ms: u32, limit_tenths: u32) -> int {
    awake_cycle_ms * limit_tenths
}

/// It runs for the rest of the cycle, or not at all when the limit is 100 % or more.
pub open spec fn awake_us(awake_cycle_ms: u32, limit_tenths: u32) -> int {
    if cycle_us(awake_cycle_ms) > sleep_us(awake_cycle_ms, limit_tenths) {
        cycle_us(awake_cycle_ms) - sleep_us(awake_cycle_ms, limit_tenths)
    } else {
        0
    }
}

/// Splits one cycle of `awake_cycle_ms` milliseconds into the time the process
/// runs and the time it is stopped, in microseconds.
pub fn duty_cycle(awake_cycle_ms: u32, limit_tenths: u32) -> (res: (u64, u64))
    ensures
        res.0 == awake_us(awake_cycle_ms, limit_tenths),
        res.1 == sleep_us(awake_cycle_ms, limit_tenths),
{
    let ms = awake_cycle_ms as u64;
    let l = limit_tenths as u64;
    proof {
        assert(ms * 1000 <= 0xffff_ffff * 1000) by (nonlinear_arith)
            requires ms <= 0xffff_ffff;
        assert(ms * l <= 0xffff_ffff * 0xffff_ffff) by (nonlinear_arith)
            requires ms <= 0xffff_ffff, l <= 0xffff_ffff;
    }
    let cycle = ms * 1000;
    let sleep = ms * l;
    let awake = if cycle > sleep { cycle - sleep } else { 0 };
    (awake, sleep)
}

/// Decides the rest of the round once the process has been probed.
pub fn limiter_after_probe(alive: bool, limit_tenths: u32, awake_cycle_ms: u32) -> (res: LimiterStep)
    ensures
        !alive ==> res == LimiterStep::Forget,
        alive && limit_tenths == 0 ==> res == LimiterStep::Resume,
        alive && limit_tenths > 0 ==> res == (LimiterStep::Cycle {
            awake_us: awake_us(awake_cycle_ms, limit_tenths) as u64,
            sleep_us: sleep_us(awake_cycle_ms, limit_tenths) as u64,
        }),
{
    if !alive {
        return LimiterStep::Forget;
    }
    if limit_tenths == 0 {
        return LimiterStep::Resume;
    }
    let (awake, sleep) = duty_cycle(awake_cycle_ms, limit_tenths);
    LimiterStep::Cycle { awake_us: awake, sleep_us: sleep }
}

/// When some target covers the process, a first one does.
proof fn lemma_first_limiting_exists(ts: Seq<TargetModel>, pid: u32, name: Seq<char>, w: int)
    requires
        0 <= w < ts.len(),
        limits_pid(ts[w], pid, name),
    ensures
        exists|i: int| is_first_limiting(ts, pid, name, i),
    decreases w,
{
    if forall|j: int| 0 <= j < w ==> !limits_pid(#[trigger] ts[j], pid, name) {
        assert(is_first_limiting(ts, pid, name, w));
    } else {
        let v = choose|j: int| 0 <= j < w && limits_pid(#[trigger] ts[j], pid, name);
        lemma_first_limiting_exists(ts, pid, name, v);
    }
}

/// Which target the limiter of `pid` (started under `name`) follows: a target
/// with that very pid, or a target for every process (pid 0) of that name; a
/// target of another pid never covers it, whatever its name. With no such
/// target the limiter is released; otherwise the first such target decides: it
/// lets the process run while switched off or while its window has the focus
/// (and the settings lift limits there), else it limits it with its own limit
/// and the configured cycle.
pub proof fn law_limiter_follows_its_target(state: AppState, focused: FocusedWindow, pid: u32, name: Seq<char>)
    ensures
        ({
            let ts = targets_model(state.targets@);
            let r = spec_limiter_check(state, focused, pid, name);
            &&& (r is Release <==> forall|i: int| 0 <= i < ts.len()
                ==> !((#[trigger] ts[i]).pid == pid || (ts[i].pid == 0 && ts[i].name == name)))
            &&& forall|i: int| 0 <= i < ts.len()
                && ((#[trigger] ts[i]).pid == pid || (ts[i].pid == 0 && ts[i].name == name))
                && (forall|j: int| 0 <= j < i ==> !((#[trigger] ts[j]).pid == pid || (ts[j].pid == 0 && ts[j].name == name)))
                ==> r == (if !ts[i].is_active || (state.unlimit_at_focus && (focused.pid == pid || focused.name@ == name)) {
                    LimiterCheck::Resume
                } else {
                    LimiterCheck::Probe { limit_tenths: ts[i].limit_tenths, awake_cycle_ms: state.awake_cycle_ms }
                })
        }),
{
    let ts = targets_model(state.targets@);
    let r = spec_limiter_check(state, focused, pid, name);
    if exists|i: int| 0 <= i < ts.len() && ((#[trigger] ts[i]).pid == pid || (ts[i].pid == 0 && ts[i].name == name)) {
        let w = choose|i: int| 0 <= i < ts.len() && ((#[trigger] ts[i]).pid == pid || (ts[i].pid == 0 && ts[i].name == name));
        assert(limits_pid(ts[w], pid, name));
        lemma_first_limiting_exists(ts, pid, name, w);
        assert(!(r is Release));
    } else {
        assert forall|i: int| !is_first_limiting(ts, pid, name, i) by {
            if 0 <= i < ts.len() {
                assert(!(ts[i].pid == pid || (ts[i].pid == 0 && ts[i].name == name)));
            }
        }
    }
    assert forall|i: int| 0 <= i < ts.len()
        && ((#[trigger] ts[i]).pid == pid || (ts[i].pid == 0 && ts[i].name == name))
        && (forall|j: int| 0 <= j < i ==> !((#[trigger] ts[j]).pid == pid || (ts[j].pid == 0 && ts[j].name == name)))
        implies r == (if !ts[i].is_active || (state.unlimit_at_focus && (focused.pid == pid || focused.name@ == name)) {
            LimiterCheck::Resume
        } else {
            LimiterCheck::Probe { limit_tenths: ts[i].limit_tenths, awake_cycle_ms: state.awake_cycle_ms }
        }) by {
        assert forall|j: int| 0 <= j < i implies !limits_pid(#[trigger] ts[j], pid, name) by {
            assert(!(ts[j].pid == pid || (ts[j].pid == 0 && ts[j].name == name)));
        }
        assert(is_first_limiting(ts, pid, name, i));
        let k = choose|k: int| is_first_limiting(ts, pid, name, k);
        lemma_first_limiting_unique(ts, pid, name, i, k);
    }
}

/// A process whose window has the focus is never stopped while the settings
/// lift limits from the focused window.
pub proof fn law_focused_never_stopped(state: AppState, focused: FocusedWindow, pid: u32, name: Seq<char>)
    requires
        spec_is_focused(state.unlimit_at_focus, focused, pid, name),
    ensures
        !(spec_limiter_check(state, focused, pid, name) is Probe),
{
}

/// A switched-off target is never stopped.
pub proof fn law_inactive_never_stopped(state: AppState, focused: FocusedWindow, pid: u32, name: Seq<char>, i: int)
    requires
        is_first_limiting(targets_model(state.targets@), pid, name, i),
        !targets_model(state.targets@)[i].is_active,
    ensures
        spec_limiter_check(state, focused, pid, name) == LimiterCheck::Resume,
{
    let ts = targets_model(state.targets@);
    let k = choose|k: int| is_first_limiting(ts, pid, name, k);
    lemma_first_limiting_unique(ts, pid, name, i, k);
}

/// With a limit of at most 100 %, one cycle is split exactly into running and
/// stopped time, and the stopped share is the limit: sleep / cycle = limit / 100.
pub proof fn law_duty_cycle(awake_cycle_ms: u32, limit_tenths: u32)
    requires
        limit_tenths <= 1000,
    ensures
        awake_us(awake_cycle_ms, limit_tenths) + sleep_us(awake_cycle_ms, limit_tenths) == cycle_us(awake_cycle_ms),
        sleep_us(awake_cycle_ms, limit_tenths) * 1000 == cycle_us(awake_cycle_ms) * limit_tenths,
{
    let ms = awake_cycle_ms as int;
    let l = limit_tenths as int;
    assert(ms * l <= ms * 1000) by (nonlinear_arith)
        requires l <= 1000, ms >= 0;
    assert((ms * l) * 1000 == (ms * 1000) * l) by (nonlinear_arith);
}

/// A request to start the limiter of a pid, under a process name.
pub open spec fn requests_model(rs: Seq<(u32, String)>) -> Seq<(u32, Seq<char>)> {
    rs.map_values(|r: (u32, String)| (r.0, r.1@))
}

/// One request per process of each group of this name, in list order.
pub open spec fn group_requests(gs: Seq<GroupModel>, name: Seq<char>) -> Seq<(u32, Seq<char>)>
    decreases gs.len(),
{
    if gs.len() == 0 {
        Seq::empty()
    } else {
        let g = gs.last();
        group_requests(gs.drop_last(), name) + if g.name == name {
            g.entries.map_values(|e: crate::procs::ProcessEntry| (e.pid, g.name))
        } else {
            Seq::empty()
        }
    }
}

/// What an active target asks for: its own pid, or, for pid 0, every running
/// process of its name. A switched-off target asks for nothing.
pub open spec fn target_requests(t: TargetModel, gs: Seq<GroupModel>) -> Seq<(u32, Seq<char>)> {
    if !t.is_active {
        Seq::empty()
    } else if t.pid == 0 {
        group_requests(gs, t.name)
    } else {
        seq![(t.pid, t.name)]
    }
}

pub open spec fn all_requests(ts: Seq<TargetModel>, gs: Seq<GroupModel>) -> Seq<(u32, Seq<char>)>
    decreases ts.len(),
{
    if ts.len() == 0 {
        Seq::empty()
    } else {
        all_requests(ts.drop_last(), gs) + target_requests(ts.last(), gs)
    }
}

/// The requests for the processes of one name: each is for a process of a
/// group of that name, under that name, and every process of every group of
/// that name gets one.
proof fn lemma_group_requests(gs: Seq<GroupModel>, name: Seq<char>)
    ensures
        ({
            let r = group_requests(gs, name);
            &&& forall|k: int| 0 <= k < r.len() ==> (#[trigger] r[k]).1 == name
                && exists|gi: int, e: int| 0 <= gi < gs.len() && 0 <= e < gs[gi].entries.len()
                    && gs[gi].name == name && (#[trigger] gs[gi].entries[e]).pid == r[k].0
            &&& forall|gi: int, e: int| 0 <= gi < gs.len() && 0 <= e < gs[gi].entries.len() && gs[gi].name == name
                ==> r.contains(((#[trigger] gs[gi].entries[e]).pid, name))
        }),
    decreases gs.len(),
{
    if gs.len() > 0 {
        let d = gs.drop_last();
        lemma_group_requests(d, name);
        let n = gs.len() - 1;
        let g = gs[n];
        let rest = group_requests(d, name);
        let extra = if g.name == name {
            g.entries.map_values(|e: crate::procs::ProcessEntry| (e.pid, g.name))
        } else {
            Seq::empty()
        };
        let r = group_requests(gs, name);
        assert(r == rest + extra);
        assert forall|k: int| 0 <= k < r.len() implies (#[trigger] r[k]).1 == name
            && exists|gi: int, e: int| 0 <= gi < gs.len() && 0 <= e < gs[gi].entries.len()
                && gs[gi].name == name && (#[trigger] gs[gi].entries[e]).pid == r[k].0 by {
            if k < rest.len() {
                assert(r[k] == rest[k]);
                let (gi, e) = choose|gi: int, e: int| 0 <= gi < d.len() && 0 <= e < d[gi].entries.len()
                    && d[gi].name == name && (#[trigger] d[gi].entries[e]).pid == rest[k].0;
                assert(gs[gi] == d[gi]);
                assert(gs[gi].entries[e].pid == r[k].0);
            } else {
                let e = k - rest.len();
                assert(r[k] == extra[e]);
                assert(g.name == name);
                assert(gs[n].entries[e].pid == r[k].0);
            }
        }
        assert forall|gi: int, e: int| 0 <= gi < gs.len() && 0 <= e < gs[gi].entries.len() && gs[gi].name == name
            implies r.contains(((#[trigger] gs[gi].entries[e]).pid, name)) by {
            if gi < n {
                assert(gs[gi] == d[gi]);
                assert(rest.contains((d[gi].entries[e].pid, name)));
                let k = choose|k: int| 0 <= k < rest.len() && rest[k] == (d[gi].entries[e].pid, name);
                assert(r[k] == rest[k]);
            } else {
                assert(r[rest.len() + e] == extra[e]);
            }
        }
    }
}

/// The process scanner asks exactly for what the active targets cover: each
/// request comes from an active target, either for its own pid (not 0) under
/// its name, or, for a target of all processes of a name (pid 0), for a running
/// process of a group of that name; and every active target with a pid, and
/// every running process of the name of an active name-wide target, is asked
/// for. Switched-off targets ask for nothing.
pub proof fn law_requests(ts: Seq<TargetModel>, gs: Seq<GroupModel>)
    ensures
        forall|k: int| #![trigger all_requests(ts, gs)[k]] 0 <= k < all_requests(ts, gs).len()
            ==> exists|i: int| #![trigger ts[i]] 0 <= i < ts.len() && ts[i].is_active
                && ts[i].name == all_requests(ts, gs)[k].1
                && ((ts[i].pid != 0 && ts[i].pid == all_requests(ts, gs)[k].0)
                    || (ts[i].pid == 0 && exists|gi: int, e: int| 0 <= gi < gs.len() && 0 <= e < gs[gi].entries.len()
                        && gs[gi].name == ts[i].name && (#[trigger] gs[gi].entries[e]).pid == all_requests(ts, gs)[k].0)),
        forall|i: int| 0 <= i < ts.len() && (#[trigger] ts[i]).is_active && ts[i].pid != 0
            ==> all_requests(ts, gs).contains((ts[i].pid, ts[i].name)),
        forall|i: int, gi: int, e: int| 0 <= i < ts.len() && (#[trigger] ts[i]).is_active && ts[i].pid == 0
            && 0 <= gi < gs.len() && 0 <= e < gs[gi].entries.len() && gs[gi].name == ts[i].name
            ==> all_requests(ts, gs).contains(((#[trigger] gs[gi].entries[e]).pid, ts[i].name)),
    decreases ts.len(),
{
    if ts.len() > 0 {
        let d = ts.drop_last();
        law_requests(d, gs);
        let n = ts.len() - 1;
        let t = ts[n];
        let rest = all_requests(d, gs);
        let extra = target_requests(t, gs);
        let r = all_requests(ts, gs);
        assert(r == rest + extra);
        lemma_group_requests(gs, t.name);
        assert forall|k: int| #![trigger r[k]] 0 <= k < r.len() implies exists|i: int| #![trigger ts[i]] 0 <= i < ts.len() && ts[i].is_active
            && ts[i].name == r[k].1
            && ((ts[i].pid != 0 && ts[i].pid == r[k].0)
                || (ts[i].pid == 0 && exists|gi: int, e: int| 0 <= gi < gs.len() && 0 <= e < gs[gi].entries.len()
                    && gs[gi].name == ts[i].name && (#[trigger] gs[gi].entries[e]).pid == r[k].0)) by {
            if k < rest.len() {
                assert(r[k] == rest[k]);
                let i = choose|i: int| #![trigger d[i]] 0 <= i < d.len() && d[i].is_active
                    && d[i].name == rest[k].1
                    && ((d[i].pid != 0 && d[i].pid == rest[k].0)
                        || (d[i].pid == 0 && exists|gi: int, e: int| 0 <= gi < gs.len() && 0 <= e < gs[gi].entries.len()
                            && gs[gi].name == d[i].name && (#[trigger] gs[gi].entries[e]).pid == rest[k].0));
                assert(ts[i] == d[i]);
            } else {
                let q = k - rest.len();
                assert(r[k] == extra[q]);
                assert(ts[n] == t);
                if t.pid != 0 {
                    assert(extra == seq![(t.pid, t.name)]);
                } else {
                    assert(extra == group_requests(gs, t.name));
                    assert(extra[q].1 == t.name);
                }
            }
        }
        assert forall|i: int| 0 <= i < ts.len() && (#[trigger] ts[i]).is_active && ts[i].pid != 0
            implies r.contains((ts[i].pid, ts[i].name)) by {
            if i < n {
                assert(ts[i] == d[i]);
                let k = choose|k: int| 0 <= k < rest.len() && rest[k] == (d[i].pid, d[i].name);
                assert(r[k] == rest[k]);
            } else {
                assert(extra == seq![(t.pid, t.name)]);
                assert(r[rest.len() as int] == extra[0]);
            }
        }
        assert forall|i: int, gi: int, e: int| 0 <= i < ts.len() && (#[trigger] ts[i]).is_active && ts[i].pid == 0
            && 0 <= gi < gs.len() && 0 <= e < gs[gi].entries.len() && gs[gi].name == ts[i].name
            implies r.contains(((#[trigger] gs[gi].entries[e]).pid, ts[i].name)) by {
            if i < n {
                assert(ts[i] == d[i]);
                assert(rest.contains((gs[gi].entries[e].pid, d[i].name)));
                let k = choose|k: int| 0 <= k < rest.len() && rest[k] == (gs[gi].entries[e].pid, d[i].name);
                assert(r[k] == rest[k]);
            } else {
                assert(extra == group_requests(gs, t.name));
                assert(extra.contains((gs[gi].entries[e].pid, t.name)));
                let k = choose|k: int| 0 <= k < extra.len() && extra[k] == (gs[gi].entries[e].pid, t.name);
                assert(r[rest.len() + k] == extra[k]);
            }
        }
        assert(forall|k: int| #![trigger all_requests(ts, gs)[k]] 0 <= k < all_requests(ts, gs).len()
            ==> exists|i: int| #![trigger ts[i]] 0 <= i < ts.len() && ts[i].is_active
                && ts[i].name == all_requests(ts, gs)[k].1
                && ((ts[i].pid != 0 && ts[i].pid == all_requests(ts, gs)[k].0)
                    || (ts[i].pid == 0 && exists|gi: int, e: int| 0 <= gi < gs.len() && 0 <= e < gs[gi].entries.len()
                        && gs[gi].name == ts[i].name && (#[trigger] gs[gi].entries[e]).pid == all_requests(ts, gs)[k].0)));
    } else {
        assert(all_requests(ts, gs).len() == 0);
    }
}

/// The limiters that one pass of the process scanner asks to start, in order:
/// for each active target either its pid, or the pid of every process of its
/// name when it covers all of them. A limiter that already runs is not started
/// twice (see `LimiterRegistry::try_start`).
pub fn limiter_requests(targets: &Vec<TargetProcess>, groups: &Vec<ProcessGroup>) -> (res: Vec<(u32, String)>)
    ensures
        requests_model(res@) == all_requests(targets_model(targets@), groups_model(groups@)),
{
    let ghost ts = targets_model(targets@);
    let ghost gs = groups_model(groups@);
    let mut res: Vec<(u32, String)> = Vec::new();
    let mut i: usize = 0;
    proof {
        assert(ts.take(0) =~= Seq::<TargetModel>::empty());
        assert(requests_model(res@) =~= Seq::<(u32, Seq<char>)>::empty());
    }
    while i < targets.len()
        invariant
            i <= targets.len(),
            ts == targets_model(targets@),
            gs == groups_model(groups@),
            requests_model(res@) == all_requests(ts.take(i as int), gs),
        decreases targets.len() - i,
    {
        let t = &targets[i];
        let ghost base = requests_model(res@);
        proof {
            assert(ts[i as int] == t@);
            assert(ts.take(i + 1).drop_last() =~= ts.take(i as int));
            assert(ts.take(i + 1).last() == t@);
        }
        if t.is_active && t.pid == 0 {
            let mut j: usize = 0;
            proof {
                assert(gs.take(0) =~= Seq::<GroupModel>::empty());
                assert(base =~= base + group_requests(gs.take(0), t.name@));
            }
            while j < groups.len()
                invariant
                    j <= groups.len(),
                    gs == groups_model(groups@),
                    requests_model(res@) == base + group_requests(gs.take(j as int), t.name@),
                decreases groups.len() - j,
            {
                let g = &groups[j];
                let ghost mid = requests_model(res@);
                proof {
                    assert(gs[j as int] == g@);
                    assert(gs.take(j + 1).drop_last() =~= gs.take(j as int));
                    assert(gs.take(j + 1).last() == g@);
                }
                if g.name == t.name {
                    let mut k: usize = 0;
                    proof {
                        assert(mid =~= mid + g@.entries.take(0).map_values(|e: crate::procs::ProcessEntry| (e.pid, g@.name)));
                    }
                    while k < g.entries.len()
                        invariant
                            k <= g.entries.len(),
                            requests_model(res@) == mid + g@.entries.take(k as int).map_values(|e: crate::procs::ProcessEntry| (e.pid, g@.name)),
                        decreases g.entries.len() - k,
                    {
                        let ghost before = res@;
                        res.push((g.entries[k].pid, g.name.clone()));
                        proof {
                            assert(g@.entries.take(k + 1) =~= g@.entries.take(k as int).push(g@.entries[k as int]));
                            assert(requests_model(res@) =~= requests_model(before).push((g@.entries[k as int].pid, g@.name)));
                        }
                        k = k + 1;
                    }
                    proof {
                        assert(g@.entries.take(k as int) =~= g@.entries);
                    }
                } else {
                    proof {
                        assert(mid =~= mid + Seq::<(u32, Seq<char>)>::empty());
                    }
                }
                proof {
                    assert(requests_model(res@) =~= base + group_requests(gs.take(j + 1), t.name@));
                }
                j = j + 1;
            }
            proof {
                assert(gs.take(j as int) =~= gs);
            }
        } else if t.is_active {
            let ghost before = res@;
            res.push((t.pid, t.name.clone()));
            proof {
                assert(requests_model(res@) =~= requests_model(before).push((t.pid, t.name@)));
                assert(requests_model(res@) =~= base + seq![(t.pid, t.name@)]);
            }
        } else {
            proof {
                assert(base =~= base + Seq::<(u32, Seq<char>)>::empty());
            }
        }
        i = i + 1;
    }
    proof {
        assert(ts.take(i as int) =~= ts);
    }
    res
}

} // verus!
