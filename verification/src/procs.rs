use vstd::prelude::*;
use std::collections::HashMap;
use crate::text::{split_whitespace, spec_words, parse_u64, spec_parse_u64};

verus! {

/// One running process as the scanner saw it: its pid, the CPU ticks it used
/// between two samples, and whether it is a kernel thread (no executable).
#[derive(Clone, Copy)]
pub struct ProcessEntry {
    pub pid: u32,
    pub cpu_ticks: u64,
    pub is_kernel: bool,
}

/// All running processes that share a name, in the order they were found,
/// with the sum of their CPU ticks.
pub struct ProcessGroup {
    pub name: String,
    pub entries: Vec<ProcessEntry>,
    pub total_ticks: u128,
}

/// Model of a group.
pub struct GroupModel {
    pub name: Seq<char>,
    pub entries: Seq<ProcessEntry>,
    pub total_ticks: u128,
}

impl View for ProcessGroup {
    type V = GroupModel;

    open spec fn view(&self) -> GroupModel {
        GroupModel { name: self.name@, entries: self.entries@, total_ticks: self.total_ticks }
    }
}

pub open spec fn groups_model(gs: Seq<ProcessGroup>) -> Seq<GroupModel> {
    gs.map_values(|g: ProcessGroup| g@)
}

/// A process found while walking the process table, with the name it goes by
/// (its `comm`, trimmed).
pub struct ScannedProcess {
    pub pid: u32,
    pub name: String,
    pub cpu_ticks: u64,
    pub is_kernel: bool,
}

pub open spec fn entry_of(s: ScannedProcess) -> ProcessEntry {
    ProcessEntry { pid: s.pid, cpu_ticks: s.cpu_ticks, is_kernel: s.is_kernel }
}

/// The entries of the processes of this name, in scan order.
pub open spec fn entries_named(scan: Seq<ScannedProcess>, name: Seq<char>) -> Seq<ProcessEntry>
    decreases scan.len(),
{
    if scan.len() == 0 {
        Seq::empty()
    } else {
        let rest = entries_named(scan.drop_last(), name);
        if scan.last().name@ == name {
            rest.push(entry_of(scan.last()))
        } else {
            rest
        }
    }
}

pub open spec fn sum_ticks(es: Seq<ProcessEntry>) -> int
    decreases es.len(),
{
    if es.len() == 0 {
        0
    } else {
        sum_ticks(es.drop_last()) + es.last().cpu_ticks
    }
}

/// A group counts as a system group when one of its processes has a pid below 1000.
pub open spec fn is_system_group(g: GroupModel) -> bool {
    exists|i: int| 0 <= i < g.entries.len() && (#[trigger] g.entries[i]).pid < 1000
}

/// The order of the process list: user groups before system groups, and within
/// each kind the busier group first.
pub open spec fn group_le(a: GroupModel, b: GroupModel) -> bool {
    ||| !is_system_group(a) && is_system_group(b)
    ||| is_system_group(a) == is_system_group(b) && a.total_ticks >= b.total_ticks
}

pub open spec fn sorted_groups(gs: Seq<GroupModel>) -> bool {
    forall|i: int, j: int| 0 <= i < j < gs.len() ==> group_le(#[trigger] gs[i], #[trigger] gs[j])
}

/// `g` is the group of its name in this scan: exactly the processes of that
/// name, in scan order, with the sum of their ticks.
pub open spec fn is_group_of(g: GroupModel, scan: Seq<ScannedProcess>) -> bool {
    &&& g.entries == entries_named(scan, g.name)
    &&& g.total_ticks == sum_ticks(g.entries)
    &&& g.entries.len() > 0
}

/// Some group carries this name.
pub open spec fn has_group_named(gs: Seq<GroupModel>, name: Seq<char>) -> bool {
    exists|i: int| 0 <= i < gs.len() && (#[trigger] gs[i]).name == name
}

/// One group per name that occurs in the scan, and nothing else.
pub open spec fn grouped(gs: Seq<GroupModel>, scan: Seq<ScannedProcess>) -> bool {
    &&& forall|i: int| 0 <= i < gs.len() ==> is_group_of(#[trigger] gs[i], scan)
    &&& forall|i: int, j: int| 0 <= i < gs.len() && 0 <= j < gs.len() && i != j ==> (#[trigger] gs[i]).name != (#[trigger] gs[j]).name
    &&& forall|k: int| 0 <= k < scan.len() ==> has_group_named(gs, (#[trigger] scan[k]).name@)
}

proof fn lemma_sum_bound(es: Seq<ProcessEntry>)
    ensures
        0 <= sum_ticks(es) <= es.len() * 0xffff_ffff_ffff_ffff,
    decreases es.len(),
{
    if es.len() > 0 {
        lemma_sum_bound(es.drop_last());
    }
}

proof fn lemma_entries_len(scan: Seq<ScannedProcess>, name: Seq<char>)
    ensures
        entries_named(scan, name).len() <= scan.len(),
    decreases scan.len(),
{
    if scan.len() > 0 {
        lemma_entries_len(scan.drop_last(), name);
    }
}

proof fn lemma_entries_absent(scan: Seq<ScannedProcess>, name: Seq<char>)
    requires
        forall|k: int| 0 <= k < scan.len() ==> (#[trigger] scan[k]).name@ != name,
    ensures
        entries_named(scan, name) == Seq::<ProcessEntry>::empty(),
    decreases scan.len(),
{
    if scan.len() > 0 {
        let d = scan.drop_last();
        assert forall|k: int| 0 <= k < d.len() implies (#[trigger] d[k]).name@ != name by {
            assert(d[k] == scan[k]);
        }
        lemma_entries_absent(d, name);
        assert(scan.last() == scan[scan.len() - 1]);
    }
}

/// Finds the group of this name.
fn find_group(groups: &Vec<ProcessGroup>, name: &String) -> (res: Option<usize>)
    ensures
        match res {
            Some(i) => i < groups@.len() && groups@[i as int].name@ == name@,
            None => forall|j: int| 0 <= j < groups@.len() ==> (#[trigger] groups@[j]).name@ != name@,
        },
{
    let mut gi: usize = 0;
    while gi < groups.len()
        invariant
            gi <= groups.len(),
            forall|j: int| 0 <= j < gi ==> (#[trigger] groups@[j]).name@ != name@,
        decreases groups.len() - gi,
    {
        if groups[gi].name == *name {
            return Some(gi);
        }
        gi = gi + 1;
    }
    None
}

/// Groups the scan by name, groups in order of first appearance.
fn group_by_name(scan: &Vec<ScannedProcess>) -> (res: Vec<ProcessGroup>)
    ensures
        grouped(groups_model(res@), scan@),
{
    let mut groups: Vec<ProcessGroup> = Vec::new();
    let mut i: usize = 0;
    proof {
        assert(scan@.take(0) =~= Seq::<ScannedProcess>::empty());
    }
    while i < scan.len()
        invariant
            i <= scan.len(),
            grouped(groups_model(groups@), scan@.take(i as int)),
        decreases scan.len() - i,
    {
        let s = &scan[i];
        let ghost before = scan@.take(i as int);
        let ghost after = scan@.take(i + 1);
        let ghost old_gm = groups_model(groups@);
        proof {
            assert(after.drop_last() =~= before);
            assert(after.last() == *s);
        }
        let e = ProcessEntry { pid: s.pid, cpu_ticks: s.cpu_ticks, is_kernel: s.is_kernel };
        match find_group(&groups, &s.name) {
            Some(gi) => {
                proof {
                    assert(old_gm[gi as int] == groups@[gi as int]@);
                    lemma_sum_bound(old_gm[gi as int].entries);
                    lemma_entries_len(before, s.name@);
                    let n = old_gm[gi as int].entries.len();
                    assert(n <= i);
                    assert(n * 0xffff_ffff_ffff_ffffnat + 0xffff_ffff_ffff_ffffnat <= 0xffff_ffff_ffff_ffff_ffff_ffff_ffff_ffffnat) by (nonlinear_arith)
                        requires n <= 0xffff_ffff_ffff_ffffnat;
                }
                let t = groups[gi].total_ticks + s.cpu_ticks as u128;
                groups[gi].entries.push(e);
                groups[gi].total_ticks = t;
                proof {
                    let gm = groups_model(groups@);
                    let g = old_gm[gi as int];
                    assert(gm[gi as int].entries =~= g.entries.push(e));
                    assert(gm[gi as int].entries.drop_last() =~= g.entries);
                    assert(entry_of(after.last()) == e);
                    assert(entries_named(after, g.name) == entries_named(before, g.name).push(e));
                    assert(sum_ticks(gm[gi as int].entries) == sum_ticks(g.entries) + e.cpu_ticks);
                    assert forall|j: int| 0 <= j < gm.len() implies is_group_of(#[trigger] gm[j], after) by {
                        if j != gi {
                            assert(gm[j] == old_gm[j]);
                            assert(old_gm[j].name != g.name);
                            assert(is_group_of(old_gm[j], before));
                            assert(entries_named(after, old_gm[j].name) == entries_named(before, old_gm[j].name));
                            assert(is_group_of(gm[j], after));
                        } else {
                            assert(gm[j].name == g.name);
                            assert(gm[j].total_ticks == g.total_ticks + e.cpu_ticks);
                            assert(is_group_of(g, before));
                            assert(gm[j].entries == entries_named(after, gm[j].name));
                            assert(gm[j].total_ticks == sum_ticks(gm[j].entries));
                            assert(is_group_of(gm[j], after));
                        }
                    }
                    assert forall|j: int, k: int| 0 <= j < gm.len() && 0 <= k < gm.len() && j != k
                        implies (#[trigger] gm[j]).name != (#[trigger] gm[k]).name by {
                        assert(gm[j].name == old_gm[j].name && gm[k].name == old_gm[k].name);
                    }
                    assert forall|k: int| 0 <= k < after.len() implies has_group_named(gm, (#[trigger] after[k]).name@) by {
                        if k < i {
                            assert(after[k] == before[k]);
                            assert(has_group_named(old_gm, before[k].name@));
                            let j = choose|j: int| 0 <= j < old_gm.len() && (#[trigger] old_gm[j]).name == before[k].name@;
                            assert(gm[j].name == old_gm[j].name);
                        } else {
                            assert(gm[gi as int].name == s.name@);
                        }
                    }
                }
            },
            None => {
                let mut es: Vec<ProcessEntry> = Vec::new();
                es.push(e);
                let g = ProcessGroup { name: s.name.clone(), entries: es, total_ticks: s.cpu_ticks as u128 };
                groups.push(g);
                proof {
                    let gm = groups_model(groups@);
                    assert(gm =~= old_gm.push(g@));
                    assert forall|k: int| 0 <= k < before.len() implies (#[trigger] before[k]).name@ != s.name@ by {
                        assert(has_group_named(old_gm, before[k].name@));
                        let j = choose|j: int| 0 <= j < old_gm.len() && (#[trigger] old_gm[j]).name == before[k].name@;
                        assert(old_gm[j] == groups@[j]@);
                    }
                    lemma_entries_absent(before, s.name@);
                    assert(g@.entries =~= Seq::<ProcessEntry>::empty().push(e));
                    assert(g@.entries.drop_last() =~= Seq::<ProcessEntry>::empty());
                    assert(sum_ticks(Seq::<ProcessEntry>::empty()) == 0);
                    assert(sum_ticks(g@.entries) == e.cpu_ticks);
                    assert forall|j: int| 0 <= j < gm.len() implies is_group_of(#[trigger] gm[j], after) by {
                        if j < old_gm.len() {
                            assert(gm[j] == old_gm[j]);
                            assert(old_gm[j] == groups@[j]@);
                        }
                    }
                    assert forall|j: int, k: int| 0 <= j < gm.len() && 0 <= k < gm.len() && j != k
                        implies (#[trigger] gm[j]).name != (#[trigger] gm[k]).name by {
                        if j < old_gm.len() {
                            assert(old_gm[j] == groups@[j]@);
                        }
                        if k < old_gm.len() {
                            assert(old_gm[k] == groups@[k]@);
                        }
                    }
                    assert forall|k: int| 0 <= k < after.len() implies has_group_named(gm, (#[trigger] after[k]).name@) by {
                        if k < i {
                            assert(after[k] == before[k]);
                            assert(has_group_named(old_gm, before[k].name@));
                            let j = choose|j: int| 0 <= j < old_gm.len() && (#[trigger] old_gm[j]).name == before[k].name@;
                            assert(gm[j] == old_gm[j]);
                        } else {
                            assert(gm[old_gm.len() as int].name == s.name@);
                        }
                    }
                }
            },
        }
        i = i + 1;
    }
    proof {
        assert(scan@.take(i as int) =~= scan@);
    }
    groups
}


/// Whether one of the group's processes has a pid below 1000.
fn group_is_system(g: &ProcessGroup) -> (res: bool)
    ensures
        res == is_system_group(g@),
{
    let mut i: usize = 0;
    while i < g.entries.len()
        invariant
            i <= g.entries.len(),
            forall|j: int| 0 <= j < i ==> (#[trigger] g.entries@[j]).pid >= 1000,
        decreases g.entries.len() - i,
    {
        if g.entries[i].pid < 1000 {
            assert(g@.entries[i as int].pid < 1000);
            return true;
        }
        i = i + 1;
    }
    false
}

/// Whether a group of this kind and load goes before one of that kind and load.
fn goes_before(sys: bool, total: u128, other_sys: bool, other_total: u128) -> (res: bool)
    ensures
        res == ((!sys && other_sys) || (sys == other_sys && total > other_total)),
{
    (!sys && other_sys) || (sys == other_sys && total > other_total)
}

/// Inserting an element at a place where everything before is no greater and
/// the next one is no smaller keeps the order.
proof fn lemma_insert_sorted(om: Seq<GroupModel>, g: GroupModel, k: int)
    requires
        sorted_groups(om),
        0 <= k <= om.len(),
        forall|m: int| 0 <= m < k ==> group_le(#[trigger] om[m], g),
        k < om.len() ==> group_le(g, om[k]),
    ensures
        sorted_groups(om.insert(k, g)),
{
    let nm = om.insert(k, g);
    assert forall|i: int, j: int| 0 <= i < j < nm.len() implies group_le(#[trigger] nm[i], #[trigger] nm[j]) by {
        if j < k {
            assert(nm[i] == om[i] && nm[j] == om[j]);
        } else if j == k {
            assert(nm[i] == om[i]);
        } else if i < k {
            assert(nm[i] == om[i] && nm[j] == om[j - 1]);
        } else if i == k {
            assert(nm[j] == om[j - 1]);
            if j - 1 > k {
                assert(group_le(om[k], om[j - 1]));
            }
        } else {
            assert(nm[i] == om[i - 1] && nm[j] == om[j - 1]);
        }
    }
}

/// Moving the group at position `r` of the grouping into the output keeps the
/// output a set of distinct groups of the grouping that covers positions `r..n`.
proof fn lemma_insert_tracks(om: Seq<GroupModel>, gm0: Seq<GroupModel>, k: int, r: int)
    requires
        0 <= r < gm0.len(),
        0 <= k <= om.len(),
        forall|i: int, j: int| 0 <= i < gm0.len() && 0 <= j < gm0.len() && i != j ==> (#[trigger] gm0[i]).name != (#[trigger] gm0[j]).name,
        forall|m: int| 0 <= m < om.len() ==> exists|q: int| r + 1 <= q < gm0.len() && #[trigger] om[m] == gm0[q],
        forall|q: int| r + 1 <= q < gm0.len() ==> has_group_named(om, (#[trigger] gm0[q]).name),
        forall|i: int, j: int| 0 <= i < om.len() && 0 <= j < om.len() && i != j ==> (#[trigger] om[i]).name != (#[trigger] om[j]).name,
    ensures
        ({
            let nm = om.insert(k, gm0[r]);
            &&& forall|m: int| 0 <= m < nm.len() ==> exists|q: int| r <= q < gm0.len() && #[trigger] nm[m] == gm0[q]
            &&& forall|q: int| r <= q < gm0.len() ==> has_group_named(nm, (#[trigger] gm0[q]).name)
            &&& forall|i: int, j: int| 0 <= i < nm.len() && 0 <= j < nm.len() && i != j ==> (#[trigger] nm[i]).name != (#[trigger] nm[j]).name
        }),
{
    let n = gm0.len();
    let nm = om.insert(k, gm0[r]);
    assert forall|m: int| 0 <= m < nm.len() implies exists|q: int| r <= q < n && #[trigger] nm[m] == gm0[q] by {
        if m < k {
            assert(nm[m] == om[m]);
            let q = choose|q: int| r + 1 <= q < n && om[m] == gm0[q];
        } else if m > k {
            assert(nm[m] == om[m - 1]);
            let q = choose|q: int| r + 1 <= q < n && om[m - 1] == gm0[q];
        } else {
            assert(nm[m] == gm0[r]);
        }
    }
    assert forall|q: int| r <= q < n implies has_group_named(nm, (#[trigger] gm0[q]).name) by {
        if q == r {
            assert(nm[k] == gm0[r]);
        } else {
            let m = choose|m: int| 0 <= m < om.len() && (#[trigger] om[m]).name == gm0[q].name;
            if m < k {
                assert(nm[m] == om[m]);
            } else {
                assert(nm[m + 1] == om[m]);
            }
        }
    }
    assert forall|i: int, j: int| 0 <= i < nm.len() && 0 <= j < nm.len() && i != j implies (#[trigger] nm[i]).name != (#[trigger] nm[j]).name by {
        if i != k && j != k {
            let ii = if i < k { i } else { i - 1 };
            let jj = if j < k { j } else { j - 1 };
            assert(nm[i] == om[ii] && nm[j] == om[jj]);
        } else if i == k {
            let jj = if j < k { j } else { j - 1 };
            assert(nm[j] == om[jj]);
            let q = choose|q: int| r + 1 <= q < n && om[jj] == gm0[q];
            assert(gm0[q].name != gm0[r].name);
        } else {
            let ii = if i < k { i } else { i - 1 };
            assert(nm[i] == om[ii]);
            let q = choose|q: int| r + 1 <= q < n && om[ii] == gm0[q];
            assert(gm0[q].name != gm0[r].name);
        }
    }
}

/// Names covered by one sequence that are all covered by another stay covered.
proof fn lemma_cover(om: Seq<GroupModel>, gm0: Seq<GroupModel>, scan: Seq<ScannedProcess>)
    requires
        forall|k: int| 0 <= k < scan.len() ==> has_group_named(gm0, (#[trigger] scan[k]).name@),
        forall|q: int| 0 <= q < gm0.len() ==> has_group_named(om, (#[trigger] gm0[q]).name),
    ensures
        forall|k: int| 0 <= k < scan.len() ==> has_group_named(om, (#[trigger] scan[k]).name@),
{
    assert forall|k: int| 0 <= k < scan.len() implies has_group_named(om, (#[trigger] scan[k]).name@) by {
        let q = choose|q: int| 0 <= q < gm0.len() && (#[trigger] gm0[q]).name == scan[k].name@;
        let m = choose|m: int| 0 <= m < om.len() && (#[trigger] om[m]).name == gm0[q].name;
        assert(om[m].name == scan[k].name@);
    }
}

/// Groups the processes of one scan by name and orders the groups: user
/// groups first, then system groups (one of their pids is below 1000), each
/// kind from the busiest to the idlest. Groups of equal rank come in no
/// particular order.
pub fn list_grouped_processes(scan: &Vec<ScannedProcess>) -> (res: Vec<ProcessGroup>)
    ensures
        grouped(groups_model(res@), scan@),
        sorted_groups(groups_model(res@)),
{
    let mut groups = group_by_name(scan);
    let ghost gm0 = groups_model(groups@);
    let ghost n = gm0.len();
    let mut out: Vec<ProcessGroup> = Vec::new();
    let mut out_sys: Vec<bool> = Vec::new();
    while groups.len() > 0
        invariant
            gm0.len() == n,
            grouped(gm0, scan@),
            groups.len() <= n,
            groups_model(groups@) == gm0.take(groups.len() as int),
            out_sys@.len() == out@.len(),
            forall|m: int| 0 <= m < out@.len() ==> out_sys@[m] == is_system_group(#[trigger] groups_model(out@)[m]),
            forall|m: int| 0 <= m < out@.len() ==> exists|k: int| groups.len() <= k < n && #[trigger] groups_model(out@)[m] == gm0[k],
            forall|k: int| groups.len() <= k < n ==> has_group_named(groups_model(out@), (#[trigger] gm0[k]).name),
            forall|i: int, j: int| 0 <= i < out@.len() && 0 <= j < out@.len() && i != j ==> (#[trigger] groups_model(out@)[i]).name != (#[trigger] groups_model(out@)[j]).name,
            sorted_groups(groups_model(out@)),
        decreases groups.len(),
    {
        let ghost r = (groups.len() - 1) as int;
        let ghost om = groups_model(out@);
        let g = groups.pop().unwrap();
        proof {
            assert(gm0.take(r + 1)[r] == g@);
            assert(groups_model(groups@) =~= gm0.take(r));
        }
        let sys = group_is_system(&g);
        let mut k: usize = 0;
        while k < out.len() && !goes_before(sys, g.total_ticks, out_sys[k], out[k].total_ticks)
            invariant
                k <= out.len(),
                sys == is_system_group(g@),
                out_sys@.len() == out@.len(),
                groups_model(out@) == om,
                forall|m: int| 0 <= m < out@.len() ==> out_sys@[m] == is_system_group(#[trigger] om[m]),
                forall|m: int| 0 <= m < k ==> group_le(#[trigger] om[m], g@),
            decreases out.len() - k,
        {
            proof {
                assert(om[k as int] == out@[k as int]@);
            }
            k = k + 1;
        }
        proof {
            if k < out.len() {
                assert(om[k as int] == out@[k as int]@);
            }
            lemma_insert_sorted(om, g@, k as int);
            lemma_insert_tracks(om, gm0, k as int, r);
        }
        let ghost gv = g@;
        out.insert(k, g);
        out_sys.insert(k, sys);
        proof {
            let nm = groups_model(out@);
            assert(nm =~= om.insert(k as int, gv));
            assert forall|m: int| 0 <= m < nm.len() implies out_sys@[m] == is_system_group(#[trigger] nm[m]) by {
                if m < k {
                    assert(nm[m] == om[m]);
                } else if m > k {
                    assert(nm[m] == om[m - 1]);
                }
            }
        }
    }
    proof {
        let om = groups_model(out@);
        assert forall|i: int| 0 <= i < om.len() implies is_group_of(#[trigger] om[i], scan@) by {
            let q = choose|q: int| 0 <= q < n && om[i] == gm0[q];
        }
        lemma_cover(om, gm0, scan@);
        assert(grouped(om, scan@));
    }
    out
}


/// In the process list every user group (all its pids at 1000 or above) comes
/// before every system group (one of its pids below 1000), and among groups of
/// the same kind the busier one comes first.
pub proof fn law_process_list_order(gs: Seq<GroupModel>, i: int, j: int)
    requires
        sorted_groups(gs),
        0 <= i < gs.len(),
        0 <= j < gs.len(),
    ensures
        (forall|e: int| 0 <= e < gs[i].entries.len() ==> (#[trigger] gs[i].entries[e]).pid >= 1000)
            && (exists|e: int| 0 <= e < gs[j].entries.len() && (#[trigger] gs[j].entries[e]).pid < 1000)
            ==> i < j,
        (forall|e: int| 0 <= e < gs[i].entries.len() ==> (#[trigger] gs[i].entries[e]).pid >= 1000)
            == (forall|e: int| 0 <= e < gs[j].entries.len() ==> (#[trigger] gs[j].entries[e]).pid >= 1000)
            && i < j ==> gs[i].total_ticks >= gs[j].total_ticks,
{
    let ui = forall|e: int| 0 <= e < gs[i].entries.len() ==> (#[trigger] gs[i].entries[e]).pid >= 1000;
    let uj = forall|e: int| 0 <= e < gs[j].entries.len() ==> (#[trigger] gs[j].entries[e]).pid >= 1000;
    assert(ui == !is_system_group(gs[i])) by {
        if is_system_group(gs[i]) {
            let e = choose|e: int| 0 <= e < gs[i].entries.len() && (#[trigger] gs[i].entries[e]).pid < 1000;
        }
    }
    assert(uj == !is_system_group(gs[j])) by {
        if is_system_group(gs[j]) {
            let e = choose|e: int| 0 <= e < gs[j].entries.len() && (#[trigger] gs[j].entries[e]).pid < 1000;
        }
    }
    if j < i {
        assert(group_le(gs[j], gs[i]));
    } else if i < j {
        assert(group_le(gs[i], gs[j]));
    }
}

broadcast use vstd::std_specs::hash::group_hash_axioms;

/// A number field of a stat line, or 0 when it is not one (as
/// `parse().unwrap_or(0)`).
pub open spec fn field_or_zero(w: Seq<char>) -> u64 {
    match spec_parse_u64(w) {
        Some(v) => v,
        None => 0,
    }
}

/// The sum of two counters as a `u64` adds it, wrapping past the top.
pub open spec fn wrapping_sum(a: u64, b: u64) -> int {
    if a + b <= u64::MAX {
        a + b
    } else {
        a + b - 0x1_0000_0000_0000_0000
    }
}

/// The CPU time of a process from its `/proc/<pid>/stat` line: user time
/// (word 14) plus system time (word 15), in clock ticks, when the line has that
/// many white-space separated words. A word that is not a number counts 0.
/// The sum wraps past `u64::MAX` as an unchecked addition does in a release build.
pub fn stat_cpu_ticks(stat: &str) -> (r: Option<u64>)
    ensures
        ({
            let w = spec_words(stat@);
            if w.len() > 14 {
                r == Some(wrapping_sum(field_or_zero(w[13]), field_or_zero(w[14])) as u64)
            } else {
                r is None
            }
        }),
{
    let words = split_whitespace(stat);
    proof {
        assert(words@.map_values(|w: String| w@).len() == words@.len());
    }
    if words.len() > 14 {
        proof {
            assert(words@[13]@ == spec_words(stat@)[13]);
            assert(words@[14]@ == spec_words(stat@)[14]);
        }
        let utime = match parse_u64(words[13].as_str()) {
            Some(v) => v,
            None => 0,
        };
        let stime = match parse_u64(words[14].as_str()) {
            Some(v) => v,
            None => 0,
        };
        if utime <= 0xffff_ffff_ffff_ffffu64 - stime {
            Some(utime + stime)
        } else {
            Some(utime - (0xffff_ffff_ffff_ffffu64 - stime) - 1)
        }
    } else {
        None
    }
}

/// The ticks of each pid in one sample; a pid seen twice keeps its last value.
pub open spec fn spec_sample_map(samples: Seq<(u32, u64)>) -> Map<u32, u64>
    decreases samples.len(),
{
    if samples.len() == 0 {
        Map::empty()
    } else {
        spec_sample_map(samples.drop_last()).insert(samples.last().0, samples.last().1)
    }
}

/// Puts one sample of (pid, ticks) pairs into a map by pid.
pub fn sample_map(samples: &Vec<(u32, u64)>) -> (m: HashMap<u32, u64>)
    ensures
        m@ == spec_sample_map(samples@),
{
    let mut m: HashMap<u32, u64> = HashMap::new();
    let mut i: usize = 0;
    proof {
        assert(samples@.take(0) =~= Seq::<(u32, u64)>::empty());
        assert(m@ =~= Map::<u32, u64>::empty());
    }
    while i < samples.len()
        invariant
            i <= samples.len(),
            m@ == spec_sample_map(samples@.take(i as int)),
        decreases samples.len() - i,
    {
        let (p, t) = samples[i];
        m.insert(p, t);
        proof {
            assert(samples@.take(i + 1).drop_last() =~= samples@.take(i as int));
        }
        i = i + 1;
    }
    proof {
        assert(samples@.take(i as int) =~= samples@);
    }
    m
}

/// The ticks that each pid used between two samples: for every pid of the
/// second sample that the first one has, the rise of its counter (0 if the
/// counter went down). A pid seen twice in the second sample keeps its last value.
pub open spec fn spec_usage(first: Map<u32, u64>, second: Seq<(u32, u64)>) -> Map<u32, u64>
    decreases second.len(),
{
    if second.len() == 0 {
        Map::empty()
    } else {
        let m = spec_usage(first, second.drop_last());
        let (p, t) = second.last();
        if first.contains_key(p) {
            m.insert(p, if t >= first[p] { (t - first[p]) as u64 } else { 0 })
        } else {
            m
        }
    }
}

/// Every pid of a sample is a key of the sample map, whatever its ticks (0
/// included), and holds the ticks of its last occurrence; no other pid is a key.
pub proof fn law_sample_map(samples: Seq<(u32, u64)>)
    ensures
        forall|k: int| 0 <= k < samples.len() ==> spec_sample_map(samples).contains_key((#[trigger] samples[k]).0),
        forall|k: int| 0 <= k < samples.len()
            && (forall|j: int| k < j < samples.len() ==> (#[trigger] samples[j]).0 != samples[k].0)
            ==> spec_sample_map(samples)[(#[trigger] samples[k]).0] == samples[k].1,
        forall|p: u32| #[trigger] spec_sample_map(samples).contains_key(p)
            ==> exists|k: int| 0 <= k < samples.len() && (#[trigger] samples[k]).0 == p,
    decreases samples.len(),
{
    if samples.len() > 0 {
        let d = samples.drop_last();
        law_sample_map(d);
        let n = samples.len() - 1;
        let m = spec_sample_map(samples);
        assert forall|k: int| 0 <= k < samples.len() implies m.contains_key((#[trigger] samples[k]).0) by {
            if k < n {
                assert(d[k] == samples[k]);
            }
        }
        assert forall|k: int| 0 <= k < samples.len()
            && (forall|j: int| k < j < samples.len() ==> (#[trigger] samples[j]).0 != samples[k].0)
            implies m[(#[trigger] samples[k]).0] == samples[k].1 by {
            if k < n {
                assert(d[k] == samples[k]);
                assert(samples[n].0 != samples[k].0);
                assert forall|j: int| k < j < d.len() implies (#[trigger] d[j]).0 != d[k].0 by {
                    assert(d[j] == samples[j]);
                }
            }
        }
        assert forall|p: u32| #[trigger] m.contains_key(p)
            implies exists|k: int| 0 <= k < samples.len() && (#[trigger] samples[k]).0 == p by {
            if p == samples[n].0 {
                assert(samples[n].0 == p);
            } else {
                assert(spec_sample_map(d).contains_key(p));
                let k = choose|k: int| 0 <= k < d.len() && (#[trigger] d[k]).0 == p;
                assert(samples[k] == d[k]);
            }
        }
    }
}

/// The usage between two samples has a pid exactly when both samples have it;
/// its value is how far the pid's counter rose from the first sample to its
/// last value in the second, or 0 when the counter went down.
pub proof fn law_usage(first: Map<u32, u64>, second: Seq<(u32, u64)>)
    ensures
        forall|p: u32| #[trigger] spec_usage(first, second).contains_key(p)
            <==> (first.contains_key(p) && exists|k: int| 0 <= k < second.len() && (#[trigger] second[k]).0 == p),
        forall|k: int| 0 <= k < second.len() && first.contains_key((#[trigger] second[k]).0)
            && (forall|j: int| k < j < second.len() ==> (#[trigger] second[j]).0 != second[k].0)
            ==> spec_usage(first, second)[second[k].0] == (if second[k].1 >= first[second[k].0] {
                (second[k].1 - first[second[k].0]) as u64
            } else {
                0u64
            }),
    decreases second.len(),
{
    if second.len() > 0 {
        let d = second.drop_last();
        law_usage(first, d);
        let n = second.len() - 1;
        let m = spec_usage(first, second);
        assert forall|p: u32| #[trigger] m.contains_key(p)
            <==> (first.contains_key(p) && exists|k: int| 0 <= k < second.len() && (#[trigger] second[k]).0 == p) by {
            assert(second.last() == second[n]);
            assert(spec_usage(first, d).contains_key(p)
                <==> (first.contains_key(p) && exists|k: int| 0 <= k < d.len() && (#[trigger] d[k]).0 == p));
            if p == second[n].0 {
                if first.contains_key(p) {
                    assert(m.contains_key(p));
                } else {
                    assert(!m.contains_key(p));
                }
            } else {
                assert(m.contains_key(p) == spec_usage(first, d).contains_key(p));
            }
            if first.contains_key(p) && exists|k: int| 0 <= k < second.len() && (#[trigger] second[k]).0 == p {
                let k = choose|k: int| 0 <= k < second.len() && (#[trigger] second[k]).0 == p;
                if k < n {
                    assert(d[k] == second[k]);
                }
            }
            if m.contains_key(p) && p != second[n].0 {
                assert(spec_usage(first, d).contains_key(p));
                let k = choose|k: int| 0 <= k < d.len() && (#[trigger] d[k]).0 == p;
                assert(second[k] == d[k]);
            }
        }
        assert forall|k: int| 0 <= k < second.len() && first.contains_key((#[trigger] second[k]).0)
            && (forall|j: int| k < j < second.len() ==> (#[trigger] second[j]).0 != second[k].0)
            implies m[second[k].0] == (if second[k].1 >= first[second[k].0] {
                (second[k].1 - first[second[k].0]) as u64
            } else {
                0u64
            }) by {
            if k < n {
                assert(d[k] == second[k]);
                assert(second[n].0 != second[k].0);
                assert forall|j: int| k < j < d.len() implies (#[trigger] d[j]).0 != d[k].0 by {
                    assert(d[j] == second[j]);
                }
            }
        }
    }
}

/// The CPU ticks of each process between the two samples.
pub fn cpu_usage(first: &HashMap<u32, u64>, second: &Vec<(u32, u64)>) -> (m: HashMap<u32, u64>)
    ensures
        m@ == spec_usage(first@, second@),
{
    let mut m: HashMap<u32, u64> = HashMap::new();
    let mut i: usize = 0;
    proof {
        assert(second@.take(0) =~= Seq::<(u32, u64)>::empty());
        assert(m@ =~= Map::<u32, u64>::empty());
    }
    while i < second.len()
        invariant
            i <= second.len(),
            m@ == spec_usage(first@, second@.take(i as int)),
        decreases second.len() - i,
    {
        let (p, t) = second[i];
        proof {
            assert(second@.take(i + 1).drop_last() =~= second@.take(i as int));
            assert(second@.take(i + 1).last() == (p, t));
        }
        match first.get(&p) {
            Some(prev) => {
                let d = if t >= *prev { t - *prev } else { 0 };
                m.insert(p, d);
            },
            None => {},
        }
        i = i + 1;
    }
    proof {
        assert(second@.take(i as int) =~= second@);
    }
    m
}

/// The ticks of one pid, or 0 when it was not measured.
pub fn cpu_ticks_for(usage: &HashMap<u32, u64>, pid: u32) -> (r: u64)
    ensures
        r == (if usage@.contains_key(pid) { usage@[pid] } else { 0 }),
{
    match usage.get(&pid) {
        Some(t) => *t,
        None => 0,
    }
}

} // verus!
