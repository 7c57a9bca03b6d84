//! The deduplication planner: leader selection and the rewrite plan that
//! replaces every other alias in a group by a link to the leader.  The
//! plan is pure data; executing it (or printing it, in a dry run) is the
//! caller's business.

use vstd::prelude::*;

use vstd::string::StringExecFns;

use crate::args::DedupAction;
use crate::fs_entry::{entry_views, entry_wf, EntryView, FSEntry};
use crate::relpath::{
    calculate_relative_path, dotdot, join_comps, lemma_relative_path_correct, norm_comps,
    rel_comps, split_comps,
};

verus! {

/// How the deduplicator treats failures and the filesystem.
pub struct DedupState {
    pub action: DedupAction,
    pub abort_on_error: bool,
    pub dry_run: bool,
}

/// One alias rewrite: the file at `remove_path` is removed and recreated
/// as a link whose target is `target` — the leader path itself for a
/// hardlink, a relative path for a symlink.
pub struct LinkStep {
    pub remove_path: String,
    pub target: String,
}

/// Mathematical image of a `LinkStep`.
pub ghost struct StepView {
    pub remove_path: Seq<char>,
    pub target: Seq<char>,
}

impl View for LinkStep {
    type V = StepView;

    open spec fn view(&self) -> StepView {
        StepView { remove_path: self.remove_path@, target: self.target@ }
    }
}

/// The rewrite plan for one duplicate group.
pub struct GroupPlan {
    pub leader_index: usize,
    pub leader_path: String,
    pub steps: Vec<LinkStep>,
}

pub open spec fn step_views(v: Seq<LinkStep>) -> Seq<StepView> {
    v.map_values(|st: LinkStep| st@)
}

/// The target a planned link points at.
pub open spec fn spec_target(action: DedupAction, leader: Seq<char>, p: Seq<char>) -> Seq<char> {
    if action == DedupAction::Hardlink {
        leader
    } else {
        join_comps(rel_comps(split_comps(leader), split_comps(p).drop_last()))
    }
}

/// The steps that rewrite every path of one entry.
pub open spec fn steps_for_entry(e: EntryView, leader: Seq<char>, action: DedupAction) -> Seq<
    StepView,
> {
    e.paths.map_values(
        |p: Seq<char>| StepView { remove_path: p, target: spec_target(action, leader, p) },
    )
}

/// The steps planned for the first `n` entries, skipping the leader.
pub open spec fn plan_steps_upto(
    s: Seq<EntryView>,
    leader_idx: int,
    leader: Seq<char>,
    action: DedupAction,
    n: int,
) -> Seq<StepView>
    decreases n,
{
    if n <= 0 {
        Seq::empty()
    } else {
        plan_steps_upto(s, leader_idx, leader, action, n - 1) + if n - 1 == leader_idx {
            Seq::empty()
        } else {
            steps_for_entry(s[n - 1], leader, action)
        }
    }
}

/// The leader of a group: smallest priority, then most aliases, then the
/// last such entry in group order.
pub open spec fn is_leader_index(s: Seq<EntryView>, li: int) -> bool {
    &&& 0 <= li < s.len()
    &&& forall|j: int| 0 <= j < s.len() ==> s[li].priority <= #[trigger] s[j].priority
    &&& forall|j: int|
        0 <= j < s.len() && #[trigger] s[j].priority == s[li].priority ==> s[j].paths.len()
            <= s[li].paths.len()
    &&& forall|j: int|
        li < j < s.len() && #[trigger] s[j].priority == s[li].priority ==> s[j].paths.len()
            < s[li].paths.len()
}

/// No two entries record the same path string.
pub open spec fn paths_disjoint(s: Seq<EntryView>) -> bool {
    forall|i: int, j: int, pi: int, pj: int|
        #![trigger s[i].paths[pi], s[j].paths[pj]]
        0 <= i < s.len() && 0 <= j < s.len() && i != j && 0 <= pi < s[i].paths.len() && 0 <= pj
            < s[j].paths.len() ==> s[i].paths[pi] != s[j].paths[pj]
}

/// Picks the group member that survives: the entry with the numerically
/// smallest priority; among those, the one with the most recorded paths;
/// among those, the last in group order.
pub fn find_group_leader_index(group: &Vec<FSEntry>) -> (r: usize)
    requires
        group@.len() >= 1,
    ensures
        is_leader_index(entry_views(group@), r as int),
{
    let ghost s = entry_views(group@);
    let n = group.len();
    let mut min_p = group[0].priority;
    let mut i: usize = 1;
    proof {
        assert(s[0] == group@[0]@);
        assert(min_p == s[0].priority);
    }
    while i < n
        invariant
            1 <= i <= n,
            n == s.len(),
            s == entry_views(group@),
            forall|j: int| 0 <= j < i ==> min_p <= #[trigger] s[j].priority,
            exists|j: int| 0 <= j < i && min_p == #[trigger] s[j].priority,
        decreases n - i,
    {
        proof {
            assert(s[i as int] == group@[i as int]@);
        }
        if group[i].priority < min_p {
            min_p = group[i].priority;
            proof {
                assert(min_p == s[i as int].priority);
            }
        } else {
            proof {
                let ghost w = choose|j: int| 0 <= j < i && min_p == #[trigger] s[j].priority;
                assert(min_p == s[w].priority);
            }
        }
        i += 1;
    }
    let mut best_idx: usize = 0;
    let mut best_len: usize = 0;
    let mut found = false;
    let mut j: usize = 0;
    while j < n
        invariant
            j <= n,
            n == s.len(),
            s == entry_views(group@),
            forall|m: int| 0 <= m < n ==> min_p <= #[trigger] s[m].priority,
            found ==> best_idx < j && s[best_idx as int].priority == min_p && best_len == s[
                best_idx as int
            ].paths.len(),
            found ==> forall|m: int|
                0 <= m < j && #[trigger] s[m].priority == min_p ==> s[m].paths.len() <= best_len,
            found ==> forall|m: int|
                best_idx < m < j && #[trigger] s[m].priority == min_p ==> s[m].paths.len()
                    < best_len,
            !found ==> forall|m: int| 0 <= m < j ==> #[trigger] s[m].priority != min_p,
        decreases n - j,
    {
        proof {
            assert(s[j as int] == group@[j as int]@);
            assert(s[j as int].paths.len() == group@[j as int].paths@.len());
        }
        if group[j].priority == min_p {
            let plen = group[j].paths.len();
            if !found || plen >= best_len {
                best_idx = j;
                best_len = plen;
                found = true;
            }
        }
        j += 1;
    }
    proof {
        assert(found) by {
            let w = choose|w: int| 0 <= w < n && min_p == #[trigger] s[w].priority;
            assert(s[w].priority == min_p);
        }
    }
    best_idx
}

/// Builds the rewrite plan for one group: every path of every non-leader
/// entry is removed and recreated as a link to the leader.  For symlinks
/// each path must have at least one component, as any path naming a file
/// does.
pub fn plan_group(group: &Vec<FSEntry>, action: DedupAction) -> (r: GroupPlan)
    requires
        group@.len() >= 1,
        action != DedupAction::Print,
        forall|i: int| 0 <= i < group@.len() ==> entry_wf(#[trigger] entry_views(group@)[i]),
        forall|i: int, pi: int|
            #![trigger entry_views(group@)[i].paths[pi]]
            0 <= i < group@.len() && 0 <= pi < entry_views(group@)[i].paths.len() ==> split_comps(
                entry_views(group@)[i].paths[pi],
            ).len() >= 1,
    ensures
        is_leader_index(entry_views(group@), r.leader_index as int),
        r.leader_path@ == entry_views(group@)[r.leader_index as int].paths[0],
        step_views(r.steps@) == plan_steps_upto(
            entry_views(group@),
            r.leader_index as int,
            r.leader_path@,
            action,
            group@.len() as int,
        ),
{
    let ghost s = entry_views(group@);
    let n = group.len();
    let li = find_group_leader_index(group);
    let leader = group[li].paths[0].clone();
    proof {
        assert(s[li as int] == group@[li as int]@);
        assert(leader@ == s[li as int].paths[0]);
    }
    let mut steps: Vec<LinkStep> = Vec::new();
    let mut i: usize = 0;
    proof {
        assert(step_views(steps@) =~= plan_steps_upto(s, li as int, leader@, action, 0));
    }
    while i < n
        invariant
            i <= n,
            n == s.len(),
            s == entry_views(group@),
            li < n,
            leader@ == s[li as int].paths[0],
            action != DedupAction::Print,
            forall|i2: int| 0 <= i2 < s.len() ==> entry_wf(#[trigger] s[i2]),
            forall|i2: int, pi: int|
                #![trigger s[i2].paths[pi]]
                0 <= i2 < s.len() && 0 <= pi < s[i2].paths.len() ==> split_comps(
                    s[i2].paths[pi],
                ).len() >= 1,
            step_views(steps@) == plan_steps_upto(s, li as int, leader@, action, i as int),
        decreases n - i,
    {
        if i != li {
            let ghost entry_v = s[i as int];
            let m = group[i].paths.len();
            proof {
                assert(s[i as int] == group@[i as int]@);
                assert(m == entry_v.paths.len());
            }
            let mut pi: usize = 0;
            while pi < m
                invariant
                    pi <= m,
                    i < n,
                    i != li,
                    n == s.len(),
                    s == entry_views(group@),
                    entry_v == s[i as int],
                    m == entry_v.paths.len(),
                    m == group@[i as int].paths@.len(),
                    li < n,
                    leader@ == s[li as int].paths[0],
                    action != DedupAction::Print,
                    forall|i2: int, pi2: int|
                        #![trigger s[i2].paths[pi2]]
                        0 <= i2 < s.len() && 0 <= pi2 < s[i2].paths.len() ==> split_comps(
                            s[i2].paths[pi2],
                        ).len() >= 1,
                    step_views(steps@) == plan_steps_upto(s, li as int, leader@, action, i as int)
                        + steps_for_entry(entry_v, leader@, action).take(pi as int),
                decreases m - pi,
            {
                let p = group[i].paths[pi].clone();
                proof {
                    assert(p@ == entry_v.paths[pi as int]);
                    assert(split_comps(p@).len() >= 1);
                }
                let target = if matches!(action, DedupAction::Hardlink) {
                    leader.clone()
                } else {
                    calculate_relative_path(leader.as_str(), p.as_str())
                };
                let ghost steps_prev = step_views(steps@);
                steps.push(LinkStep { remove_path: p, target });
                proof {
                    let fe = steps_for_entry(entry_v, leader@, action);
                    assert(step_views(steps@) =~= steps_prev.push(fe[pi as int]));
                    assert(fe.take(pi + 1) =~= fe.take(pi as int).push(fe[pi as int]));
                    assert(step_views(steps@) =~= plan_steps_upto(
                        s,
                        li as int,
                        leader@,
                        action,
                        i as int,
                    ) + fe.take(pi + 1));
                }
                pi += 1;
            }
            proof {
                let fe = steps_for_entry(entry_v, leader@, action);
                assert(fe.take(m as int) =~= fe);
                assert(step_views(steps@) =~= plan_steps_upto(
                    s,
                    li as int,
                    leader@,
                    action,
                    i + 1,
                ));
            }
        } else {
            proof {
                assert(plan_steps_upto(s, li as int, leader@, action, i + 1) =~= plan_steps_upto(
                    s,
                    li as int,
                    leader@,
                    action,
                    i as int,
                ));
            }
        }
        i += 1;
    }
    GroupPlan { leader_index: li, leader_path: leader, steps }
}

/// A plan fits a group when its leader is the selected one and its steps
/// are exactly the planned rewrites of every non-leader path.
pub open spec fn plan_ok(g: Seq<EntryView>, action: DedupAction, plan: GroupPlan) -> bool {
    &&& is_leader_index(g, plan.leader_index as int)
    &&& plan.leader_path@ == g[plan.leader_index as int].paths[0]
    &&& step_views(plan.steps@) == plan_steps_upto(
        g,
        plan.leader_index as int,
        plan.leader_path@,
        action,
        g.len() as int,
    )
}

/// Builds the rewrite plan for every group.
pub fn plan_dedup(groups: &Vec<Vec<FSEntry>>, action: DedupAction) -> (r: Vec<GroupPlan>)
    requires
        action != DedupAction::Print,
        forall|g: int| 0 <= g < groups@.len() ==> (#[trigger] groups@[g])@.len() >= 1,
        forall|g: int, i: int|
            #![trigger entry_views(groups@[g]@)[i]]
            0 <= g < groups@.len() && 0 <= i < groups@[g]@.len() ==> entry_wf(
                entry_views(groups@[g]@)[i],
            ),
        forall|g: int, i: int, pi: int|
            #![trigger entry_views(groups@[g]@)[i].paths[pi]]
            0 <= g < groups@.len() && 0 <= i < groups@[g]@.len() && 0 <= pi < entry_views(
                groups@[g]@,
            )[i].paths.len() ==> split_comps(entry_views(groups@[g]@)[i].paths[pi]).len() >= 1,
    ensures
        r@.len() == groups@.len(),
        forall|g: int|
            0 <= g < groups@.len() ==> plan_ok(entry_views(groups@[g]@), action, #[trigger] r@[g]),
{
    let mut r: Vec<GroupPlan> = Vec::new();
    let n = groups.len();
    let mut g: usize = 0;
    while g < n
        invariant
            g <= n,
            n == groups@.len(),
            action != DedupAction::Print,
            forall|g2: int| 0 <= g2 < groups@.len() ==> (#[trigger] groups@[g2])@.len() >= 1,
            forall|g2: int, i: int|
                #![trigger entry_views(groups@[g2]@)[i]]
                0 <= g2 < groups@.len() && 0 <= i < groups@[g2]@.len() ==> entry_wf(
                    entry_views(groups@[g2]@)[i],
                ),
            forall|g2: int, i: int, pi: int|
                #![trigger entry_views(groups@[g2]@)[i].paths[pi]]
                0 <= g2 < groups@.len() && 0 <= i < groups@[g2]@.len() && 0 <= pi < entry_views(
                    groups@[g2]@,
                )[i].paths.len() ==> split_comps(
                    entry_views(groups@[g2]@)[i].paths[pi],
                ).len() >= 1,
            r@.len() == g,
            forall|g2: int|
                0 <= g2 < g ==> plan_ok(entry_views(groups@[g2]@), action, #[trigger] r@[g2]),
        decreases n - g,
    {
        let plan = plan_group(&groups[g], action);
        r.push(plan);
        g += 1;
    }
    r
}

/// The dry-run line announcing a removal.
pub fn render_remove_line(p: &String) -> (r: String)
    ensures
        r@ == "  rm '"@ + p@ + "'"@,
{
    let mut r = String::from_str("  rm '");
    r.append(p.as_str());
    r.append("'");
    r
}

/// The dry-run line announcing a link creation: a plain hardlink line,
/// or a symbolic one with the relative target.
pub fn render_link_line(hard: bool, target: &String, dst: &String) -> (r: String)
    ensures
        hard ==> r@ == "  ln '"@ + target@ + "' '"@ + dst@ + "'"@,
        !hard ==> r@ == "  ln -s '"@ + target@ + "' '"@ + dst@ + "'"@,
{
    let mut r = if hard {
        String::from_str("  ln '")
    } else {
        String::from_str("  ln -s '")
    };
    r.append(target.as_str());
    r.append("' '");
    r.append(dst.as_str());
    r.append("'");
    r
}

/// Law (leader protection): when no two entries share a path string, no
/// planned step removes the leader's own path, so the leader file is
/// never touched.
pub proof fn lemma_leader_protected(
    s: Seq<EntryView>,
    li: int,
    leader: Seq<char>,
    action: DedupAction,
    n: int,
)
    requires
        0 <= li < s.len(),
        0 <= n <= s.len(),
        leader == s[li].paths[0],
        s[li].paths.len() >= 1,
        paths_disjoint(s),
    ensures
        forall|t: int|
            0 <= t < plan_steps_upto(s, li, leader, action, n).len() ==> #[trigger] plan_steps_upto(
                s,
                li,
                leader,
                action,
                n,
            )[t].remove_path != leader,
    decreases n,
{
    if n > 0 {
        lemma_leader_protected(s, li, leader, action, n - 1);
        let prev = plan_steps_upto(s, li, leader, action, n - 1);
        let cur = plan_steps_upto(s, li, leader, action, n);
        assert forall|t: int| 0 <= t < cur.len() implies #[trigger] cur[t].remove_path
            != leader by {
            if t < prev.len() {
                assert(cur[t] == prev[t]);
            } else {
                assert(n - 1 != li);
                let fe = steps_for_entry(s[n - 1], leader, action);
                let pi = t - prev.len();
                assert(cur[t] == fe[pi]);
                assert(fe[pi].remove_path == s[n - 1].paths[pi]);
                assert(s[n - 1].paths[pi] != s[li].paths[0]);
            }
        }
    }
}

/// Law (symlink relativity): splitting a planned symlink target into
/// components and resolving it against the parent directory of the link
/// location yields exactly the leader's components.  Paths collected from
/// a directory walk contain no `..` components, which is all this needs.
pub proof fn lemma_symlink_target_resolves(leader: Seq<char>, p: Seq<char>)
    requires
        forall|i: int|
            0 <= i < split_comps(leader).len() ==> #[trigger] split_comps(leader)[i] != dotdot(),
        forall|i: int|
            0 <= i < split_comps(p).drop_last().len() ==> #[trigger] split_comps(
                p,
            ).drop_last()[i] != dotdot(),
    ensures
        norm_comps(
            split_comps(p).drop_last() + split_comps(
                spec_target(DedupAction::Symlink, leader, p),
            ),
        ) == split_comps(leader),
{
    let src = split_comps(leader);
    let dstp = split_comps(p).drop_last();
    crate::relpath::lemma_split_wf(leader);
    crate::relpath::lemma_rel_comps_wf(src, dstp);
    crate::relpath::lemma_split_join(rel_comps(src, dstp));
    lemma_relative_path_correct(src, dstp);
}

} // verus!
