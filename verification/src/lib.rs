//! A filesystem deduplicator core: inode-unifying collection, a staged
//! heuristic pipeline that discards unique files, duplicate grouping,
//! and a link-rewriting planner.  Everything here is verified; the thin
//! shell that performs filesystem traversal, file reads, and link
//! syscalls lives outside the library and consumes the contracts stated
//! here.

pub mod args;
pub mod collect;
pub mod dedup;
pub mod digest;
pub mod errors;
pub mod eval;
pub mod fs_entry;
pub mod globs;
pub mod heuristics;
pub mod order;
pub mod relpath;
pub mod report;
pub mod search;

use vstd::prelude::*;

use vstd::multiset::Multiset;
use vstd::string::StringExecFns;

use crate::args::{Args, DedupAction};
use crate::dedup::{plan_dedup, plan_ok, GroupPlan};
use crate::errors::DedupError;
use crate::eval::{
    core_views, has_core_witness, lemma_core_property_transfer, loc_views,
    remove_unique_entries_by_heuristic_fn,
};
use crate::fs_entry::{entry_views, entry_wf, EntryView, FSEntry, Heuristic};
use crate::order::{entries_sorted, entry_equiv, entry_lt, lemma_entry_order};
use crate::relpath::split_comps;
use crate::search::{
    group_by_heuristic, group_views, lemma_flatten_multiset_permutation,
    lemma_groups_permutation_properties, lemma_map_to_multiset_subset, lemma_survivors_subset,
    remove_unique_entries_by_heuristic, survivor_multiset,
};

verus! {

broadcast use vstd::multiset::group_multiset_axioms, vstd::seq_lib::group_to_multiset_ensures;

/// One evaluated stage: the records keep their identities while their
/// heuristic values are rewritten somehow, and then the entries left
/// alone in their class are dropped.
pub open spec fn stage_rel(
    m_in: Multiset<EntryView>,
    m_out: Multiset<EntryView>,
    cmp_dev: bool,
) -> bool {
    exists|inp: Seq<EntryView>, ev: Seq<EntryView>|
        {
            &&& #[trigger] inp.to_multiset() == m_in
            &&& core_views(ev).to_multiset() == core_views(inp).to_multiset()
            &&& m_out == survivor_multiset(#[trigger] ev.to_multiset(), cmp_dev)
        }
}

/// The staged pipeline as a whole: the free size stage, then — only when
/// byte probing is enabled — the head and tail stages, then the hash
/// stage.
pub open spec fn pipeline_rel(
    m0: Multiset<EntryView>,
    m_out: Multiset<EntryView>,
    cmp_dev: bool,
    use_bytes: bool,
) -> bool {
    if use_bytes {
        exists|m2: Multiset<EntryView>, m3: Multiset<EntryView>|
            {
                &&& stage_rel(survivor_multiset(m0, cmp_dev), m2, cmp_dev)
                &&& #[trigger] stage_rel(m2, m3, cmp_dev)
                &&& stage_rel(m3, m_out, cmp_dev)
            }
    } else {
        stage_rel(survivor_multiset(m0, cmp_dev), m_out, cmp_dev)
    }
}

/// Runs the refinement pipeline: entries are grouped by size, then — if
/// `n_read` allows — by their first and last bytes, then by their full
/// hash, each stage discarding the entries alone in their class.  Device
/// identity joins every comparison exactly when the planned action is a
/// hardlink.
pub fn remove_unique_files<
    F1: Fn(&FSEntry) -> Result<Heuristic, DedupError>,
    F2: Fn(&FSEntry) -> Result<Heuristic, DedupError>,
    F3: Fn(&FSEntry) -> Result<Heuristic, DedupError>,
>(
    entries: Vec<FSEntry>,
    args: &Args,
    f_head: F1,
    f_tail: F2,
    f_hash: F3,
) -> (r: Result<Vec<FSEntry>, DedupError>)
    requires
        forall|e: &FSEntry| call_requires(f_head, (e,)),
        forall|e: &FSEntry| call_requires(f_tail, (e,)),
        forall|e: &FSEntry| call_requires(f_hash, (e,)),
    ensures
        r matches Err(_) ==> args.abort_on_error,
        !args.abort_on_error ==> r matches Ok(_),
        match r {
            Ok(v) => {
                let cmp_dev = args.action == DedupAction::Hardlink;
                &&& entries_sorted(entry_views(v@), cmp_dev)
                &&& pipeline_rel(
                    entry_views(entries@).to_multiset(),
                    entry_views(v@).to_multiset(),
                    cmp_dev,
                    args.n_read > 0,
                )
                &&& core_views(entry_views(v@)).to_multiset().subset_of(
                    core_views(entry_views(entries@)).to_multiset(),
                )
                &&& loc_views(entry_views(v@)).to_multiset().subset_of(
                    loc_views(entry_views(entries@)).to_multiset(),
                )
            },
            Err(_) => true,
        },
{
    let cmp_dev = args.action == DedupAction::Hardlink;
    let ghost in_views = entry_views(entries@);
    let ghost m0 = in_views.to_multiset();
    let stage1 = remove_unique_entries_by_heuristic(entries, cmp_dev);
    proof {
        lemma_survivors_subset(m0, cmp_dev);
        lemma_map_to_multiset_subset(
            entry_views(stage1@),
            in_views,
            |e: EntryView| (e.dev, e.inode),
        );
        lemma_map_to_multiset_subset(
            entry_views(stage1@),
            in_views,
            |e: EntryView| crate::eval::core_of(e),
        );
        assert(entry_views(stage1@).map_values(|e: EntryView| (e.dev, e.inode)) =~= loc_views(
            entry_views(stage1@),
        ));
        assert(in_views.map_values(|e: EntryView| (e.dev, e.inode)) =~= loc_views(in_views));
        assert(entry_views(stage1@).map_values(|e: EntryView| crate::eval::core_of(e))
            =~= core_views(entry_views(stage1@)));
        assert(in_views.map_values(|e: EntryView| crate::eval::core_of(e)) =~= core_views(
            in_views,
        ));
    }
    let use_bytes = args.n_read > 0;
    let ghost s1_views = entry_views(stage1@);
    let before_hash = if use_bytes {
        let s2 = match remove_unique_entries_by_heuristic_fn(
            stage1,
            cmp_dev,
            args.abort_on_error,
            f_head,
        ) {
            Ok(v) => v,
            Err(e) => {
                return Err(e);
            },
        };
        let ghost s2_views = entry_views(s2@);
        proof {
            assert(s1_views.to_multiset() == survivor_multiset(m0, cmp_dev));
            assert(stage_rel(survivor_multiset(m0, cmp_dev), s2_views.to_multiset(), cmp_dev));
        }
        let s3 = match remove_unique_entries_by_heuristic_fn(
            s2,
            cmp_dev,
            args.abort_on_error,
            f_tail,
        ) {
            Ok(v) => v,
            Err(e) => {
                return Err(e);
            },
        };
        proof {
            let s3_views = entry_views(s3@);
            assert(stage_rel(s2_views.to_multiset(), s3_views.to_multiset(), cmp_dev));
        }
        s3
    } else {
        stage1
    };
    let ghost bh_views = entry_views(before_hash@);
    let result = match remove_unique_entries_by_heuristic_fn(
        before_hash,
        cmp_dev,
        args.abort_on_error,
        f_hash,
    ) {
        Ok(v) => v,
        Err(e) => {
            return Err(e);
        },
    };
    proof {
        let out_views = entry_views(result@);
        assert(stage_rel(bh_views.to_multiset(), out_views.to_multiset(), cmp_dev));
        if use_bytes {
            assert(pipeline_rel(m0, out_views.to_multiset(), cmp_dev, use_bytes));
        } else {
            assert(bh_views.to_multiset() == survivor_multiset(m0, cmp_dev));
            assert(pipeline_rel(m0, out_views.to_multiset(), cmp_dev, use_bytes));
        }
    }
    Ok(result)
}

/// The size that orders the final groups: the first member's, or zero
/// for an empty group.
pub open spec fn group_size_key(g: Seq<EntryView>) -> u64 {
    if g.len() == 0 {
        0
    } else {
        g[0].size
    }
}

fn group_key_exec(g: &Vec<FSEntry>) -> (r: u64)
    ensures
        r == group_size_key(entry_views(g@)),
{
    if g.len() == 0 {
        0
    } else {
        proof {
            assert(entry_views(g@)[0] == g@[0]@);
        }
        g[0].size
    }
}

/// Sorts the duplicate groups ascending by the size of their first
/// member; a permutation of the input.
pub fn sort_groups_by_size(groups: Vec<Vec<FSEntry>>) -> (r: Vec<Vec<FSEntry>>)
    ensures
        r@.len() == groups@.len(),
        group_views(r@).to_multiset() == group_views(groups@).to_multiset(),
        forall|a: int, b: int|
            0 <= a < b < r@.len() ==> group_size_key(#[trigger] group_views(r@)[a])
                <= group_size_key(#[trigger] group_views(r@)[b]),
{
    let ghost m0 = group_views(groups@).to_multiset();
    let ghost n0 = groups@.len();
    let mut input = groups;
    let mut out: Vec<Vec<FSEntry>> = Vec::new();
    proof {
        assert(group_views(out@).to_multiset().add(group_views(input@).to_multiset()) =~= m0);
    }
    while input.len() > 0
        invariant
            forall|a: int, b: int|
                0 <= a < b < out@.len() ==> group_size_key(#[trigger] group_views(out@)[a])
                    <= group_size_key(#[trigger] group_views(out@)[b]),
            group_views(out@).to_multiset().add(group_views(input@).to_multiset()) == m0,
            out@.len() + input@.len() == n0,
        decreases input@.len(),
    {
        let ghost in_prev = input@;
        let g = input.remove(0);
        proof {
            assert(group_views(in_prev)[0] == entry_views(g@));
            assert(group_views(input@) =~= group_views(in_prev).remove(0));
        }
        let key = group_key_exec(&g);
        let mut pos: usize = 0;
        loop
            invariant
                pos <= out@.len(),
                forall|k: int|
                    0 <= k < pos ==> group_size_key(#[trigger] group_views(out@)[k]) <= key,
                key == group_size_key(entry_views(g@)),
                forall|a: int, b: int|
                    0 <= a < b < out@.len() ==> group_size_key(#[trigger] group_views(out@)[a])
                        <= group_size_key(#[trigger] group_views(out@)[b]),
            ensures
                pos <= out@.len(),
                forall|k: int|
                    0 <= k < pos ==> group_size_key(#[trigger] group_views(out@)[k]) <= key,
                pos == out@.len() || key < group_size_key(group_views(out@)[pos as int]),
                key == group_size_key(entry_views(g@)),
            decreases out@.len() - pos,
        {
            if pos == out.len() {
                break ;
            }
            let other = group_key_exec(&out[pos]);
            proof {
                assert(group_views(out@)[pos as int] == entry_views(out@[pos as int]@));
            }
            if key < other {
                break ;
            }
            pos += 1;
        }
        let ghost out_prev = out@;
        out.insert(pos, g);
        proof {
            let vs = group_views(out_prev);
            let vs2 = group_views(out@);
            assert(vs2 =~= vs.insert(pos as int, entry_views(g@)));
            assert(vs.insert(pos as int, entry_views(g@)).to_multiset() == vs.to_multiset().insert(
                entry_views(g@),
            ));
            assert forall|a: int, b: int| 0 <= a < b < vs2.len() implies group_size_key(
                #[trigger] vs2[a],
            ) <= group_size_key(#[trigger] vs2[b]) by {
                if a < pos {
                    assert(vs2[a] == vs[a]);
                }
                if a == pos {
                    assert(vs2[a] == entry_views(g@));
                }
                if a > pos {
                    assert(vs2[a] == vs[a - 1]);
                }
                if b < pos {
                    assert(vs2[b] == vs[b]);
                }
                if b == pos {
                    assert(vs2[b] == entry_views(g@));
                }
                if b > pos {
                    assert(vs2[b] == vs[b - 1]);
                }
            }
            assert(group_views(in_prev).to_multiset().count(entry_views(g@)) > 0) by {
                assert(group_views(in_prev).contains(entry_views(g@)));
            }
            assert(group_views(out@).to_multiset().add(group_views(input@).to_multiset()) =~= m0);
        }
    }
    proof {
        assert(group_views(input@) =~= Seq::<Seq<EntryView>>::empty());
        assert(group_views(out@).to_multiset() =~= m0);
    }
    out
}

/// Everything a run produces before the shell acts on the filesystem:
/// the duplicate groups, ordered by size, and the rewrite plan for each
/// group when the action calls for one.
pub struct RunOutput {
    pub groups: Vec<Vec<FSEntry>>,
    pub plans: Vec<GroupPlan>,
}

/// Drives a full run over already-collected entries: refuses a print
/// action without an output path, refines the candidate set through the
/// staged pipeline, partitions the survivors into duplicate groups
/// ordered by size, and plans the link rewrites unless the action only
/// prints.  Entries must be well formed, with every path holding at
/// least one component, as collection guarantees.
pub fn run<
    F1: Fn(&FSEntry) -> Result<Heuristic, DedupError>,
    F2: Fn(&FSEntry) -> Result<Heuristic, DedupError>,
    F3: Fn(&FSEntry) -> Result<Heuristic, DedupError>,
>(args: &Args, entries: Vec<FSEntry>, f_head: F1, f_tail: F2, f_hash: F3) -> (r: Result<
    RunOutput,
    DedupError,
>)
    requires
        forall|e: &FSEntry| call_requires(f_head, (e,)),
        forall|e: &FSEntry| call_requires(f_tail, (e,)),
        forall|e: &FSEntry| call_requires(f_hash, (e,)),
        forall|i: int| 0 <= i < entries@.len() ==> entry_wf(#[trigger] entry_views(entries@)[i]),
        forall|i: int, pi: int|
            #![trigger entry_views(entries@)[i].paths[pi]]
            0 <= i < entries@.len() && 0 <= pi < entry_views(entries@)[i].paths.len()
                ==> split_comps(entry_views(entries@)[i].paths[pi]).len() >= 1,
    ensures
        (args.action == DedupAction::Print && (args.result_path matches None)) ==> (r matches Err(
            e,
        ) && e matches DedupError::Config(m) && m@
            == "No output file specified for action 'print'"@),
        r matches Err(_) ==> args.abort_on_error || (args.action == DedupAction::Print && (
        args.result_path matches None)),
        (!args.abort_on_error && !(args.action == DedupAction::Print && (
        args.result_path matches None))) ==> r matches Ok(_),
        match r {
            Ok(out) => {
                let cmp_dev = args.action == DedupAction::Hardlink;
                let gv = group_views(out.groups@);
                &&& forall|a: int, b: int|
                    0 <= a < b < gv.len() ==> group_size_key(#[trigger] gv[a]) <= group_size_key(
                        #[trigger] gv[b],
                    )
                &&& forall|g: int| 0 <= g < gv.len() ==> (#[trigger] gv[g]).len() >= 2
                &&& forall|g: int, i: int, j: int|
                    0 <= g < gv.len() && 0 <= i < gv[g].len() && 0 <= j < gv[g].len()
                        ==> entry_equiv(#[trigger] gv[g][i], #[trigger] gv[g][j], cmp_dev)
                &&& forall|g1: int, g2: int|
                    0 <= g1 < gv.len() && 0 <= g2 < gv.len() && g1 != g2 ==> !entry_equiv(
                        #[trigger] gv[g1][0],
                        #[trigger] gv[g2][0],
                        cmp_dev,
                    )
                &&& pipeline_rel(
                    entry_views(entries@).to_multiset(),
                    gv.flatten().to_multiset(),
                    cmp_dev,
                    args.n_read > 0,
                )
                &&& loc_views(gv.flatten()).to_multiset().subset_of(
                    loc_views(entry_views(entries@)).to_multiset(),
                )
                &&& if args.action == DedupAction::Print {
                    out.plans@.len() == 0
                } else {
                    out.plans@.len() == out.groups@.len() && forall|g: int|
                        0 <= g < out.groups@.len() ==> plan_ok(
                            #[trigger] gv[g],
                            args.action,
                            out.plans@[g],
                        )
                }
            },
            Err(_) => true,
        },
{
    if matches!(args.action, DedupAction::Print) && args.result_path.is_none() {
        return Err(
            DedupError::Config(String::from_str("No output file specified for action 'print'")),
        );
    }
    let ghost in_views = entry_views(entries@);
    let cmp_dev = args.action == DedupAction::Hardlink;
    let survivors = match remove_unique_files(entries, args, f_head, f_tail, f_hash) {
        Ok(v) => v,
        Err(e) => {
            return Err(e);
        },
    };
    let ghost sv_views = entry_views(survivors@);
    let groups0 = group_by_heuristic(survivors, cmp_dev);
    proof {
        lemma_entry_order(cmp_dev);
        assert forall|g1: int, g2: int|
            0 <= g1 < group_views(groups0@).len() && 0 <= g2 < group_views(groups0@).len() && g1
            != g2 implies !entry_equiv(
            #[trigger] group_views(groups0@)[g1][0],
            #[trigger] group_views(groups0@)[g2][0],
            cmp_dev,
        ) by {
            if g1 < g2 {
                assert(entry_lt(
                    group_views(groups0@)[g1][0],
                    group_views(groups0@)[g2][0],
                    cmp_dev,
                ));
            } else {
                assert(entry_lt(
                    group_views(groups0@)[g2][0],
                    group_views(groups0@)[g1][0],
                    cmp_dev,
                ));
            }
        }
    }
    let groups = sort_groups_by_size(groups0);
    proof {
        lemma_groups_permutation_properties(group_views(groups0@), group_views(groups@), cmp_dev);
        lemma_flatten_multiset_permutation(group_views(groups0@), group_views(groups@));
        let flat = group_views(groups@).flatten();
        assert(flat.to_multiset() == sv_views.to_multiset());
        // the flattened groups keep the survivors' locations and cores
        lemma_map_to_multiset_subset(flat, sv_views, |e: EntryView| (e.dev, e.inode));
        assert(flat.map_values(|e: EntryView| (e.dev, e.inode)) =~= loc_views(flat));
        assert(sv_views.map_values(|e: EntryView| (e.dev, e.inode)) =~= loc_views(sv_views));
        lemma_map_to_multiset_subset(flat, sv_views, |e: EntryView| crate::eval::core_of(e));
        assert(flat.map_values(|e: EntryView| crate::eval::core_of(e)) =~= core_views(flat));
        assert(sv_views.map_values(|e: EntryView| crate::eval::core_of(e)) =~= core_views(
            sv_views,
        ));
        lemma_core_property_transfer(flat, in_views);
        // every group member is well formed because some input entry
        // shares its core
        assert forall|g: int, i: int|
            #![trigger group_views(groups@)[g][i]]
            0 <= g < group_views(groups@).len() && 0 <= i < group_views(
                groups@,
            )[g].len() implies entry_wf(group_views(groups@)[g][i]) && (forall|pi: int|
            0 <= pi < group_views(groups@)[g][i].paths.len() ==> split_comps(
                #[trigger] group_views(groups@)[g][i].paths[pi],
            ).len() >= 1) by {
            lemma_flatten_member(group_views(groups@), g, i);
            let fi = choose|fi: int|
                0 <= fi < flat.len() && #[trigger] flat[fi] == group_views(groups@)[g][i];
            assert(has_core_witness(in_views, crate::eval::core_of(flat[fi])));
            let j = choose|j: int|
                0 <= j < in_views.len() && crate::eval::core_of(#[trigger] in_views[j])
                    == crate::eval::core_of(flat[fi]);
            assert(entry_wf(in_views[j]));
        }
    }
    proof {
        assert forall|g2: int| 0 <= g2 < groups@.len() implies #[trigger] group_views(groups@)[g2]
            == entry_views(groups@[g2]@) by {}
        assert forall|g2: int| 0 <= g2 < groups@.len() implies (#[trigger] groups@[g2])@.len()
            >= 1 by {
            assert(group_views(groups@)[g2].len() >= 1);
        }
        assert forall|g2: int, i: int|
            #![trigger entry_views(groups@[g2]@)[i]]
            0 <= g2 < groups@.len() && 0 <= i < groups@[g2]@.len() implies entry_wf(
            entry_views(groups@[g2]@)[i],
        ) by {
            assert(entry_views(groups@[g2]@)[i] == group_views(groups@)[g2][i]);
            assert(entry_wf(group_views(groups@)[g2][i]));
        }
        assert forall|g2: int, i: int, pi: int|
            #![trigger entry_views(groups@[g2]@)[i].paths[pi]]
            0 <= g2 < groups@.len() && 0 <= i < groups@[g2]@.len() && 0 <= pi < entry_views(
                groups@[g2]@,
            )[i].paths.len() implies split_comps(entry_views(groups@[g2]@)[i].paths[pi]).len()
            >= 1 by {
            assert(entry_views(groups@[g2]@)[i] == group_views(groups@)[g2][i]);
            assert(entry_wf(group_views(groups@)[g2][i]));
        }
    }
    proof {
        // the survivors of the final stage all keep a peer, so no group
        // stands alone
        let m_in = entry_views(entries@).to_multiset();
        let sv_m = sv_views.to_multiset();
        let flat = group_views(groups@).flatten();
        let use_bytes = args.n_read > 0;
        assert(pipeline_rel(m_in, sv_m, cmp_dev, use_bytes));
        if use_bytes {
            let (m2, m3) = choose|m2: Multiset<EntryView>, m3: Multiset<EntryView>|
                {
                    &&& stage_rel(survivor_multiset(m_in, cmp_dev), m2, cmp_dev)
                    &&& #[trigger] stage_rel(m2, m3, cmp_dev)
                    &&& stage_rel(m3, sv_m, cmp_dev)
                };
            assert(stage_rel(m3, sv_m, cmp_dev));
            let (inp, ev) = choose|inp: Seq<EntryView>, ev: Seq<EntryView>|
                {
                    &&& #[trigger] inp.to_multiset() == m3
                    &&& core_views(ev).to_multiset() == core_views(inp).to_multiset()
                    &&& sv_m == survivor_multiset(#[trigger] ev.to_multiset(), cmp_dev)
                };
            crate::search::lemma_survivor_has_peer(ev.to_multiset(), cmp_dev);
        } else {
            assert(stage_rel(survivor_multiset(m_in, cmp_dev), sv_m, cmp_dev));
            let (inp, ev) = choose|inp: Seq<EntryView>, ev: Seq<EntryView>|
                {
                    &&& #[trigger] inp.to_multiset() == survivor_multiset(m_in, cmp_dev)
                    &&& core_views(ev).to_multiset() == core_views(inp).to_multiset()
                    &&& sv_m == survivor_multiset(#[trigger] ev.to_multiset(), cmp_dev)
                };
            crate::search::lemma_survivor_has_peer(ev.to_multiset(), cmp_dev);
        }
        assert(flat.to_multiset() == sv_m);
        crate::search::lemma_groups_at_least_two(group_views(groups@), cmp_dev);
    }
    let plans = if matches!(args.action, DedupAction::Print) {
        Vec::new()
    } else {
        plan_dedup(&groups, args.action)
    };
    Ok(RunOutput { groups, plans })
}

/// The redundant files of one group: every path of every member past
/// the first.
pub open spec fn spec_group_dup_files(g: Seq<EntryView>) -> int
    decreases g.len(),
{
    if g.len() <= 1 {
        0
    } else {
        spec_group_dup_files(g.drop_last()) + g.last().paths.len()
    }
}

/// The redundant inodes over all groups: each group keeps one.
pub open spec fn spec_dup_inodes(gs: Seq<Seq<EntryView>>) -> int
    decreases gs.len(),
{
    if gs.len() == 0 {
        0
    } else {
        spec_dup_inodes(gs.drop_last()) + (if gs.last().len() >= 1 {
            gs.last().len() - 1
        } else {
            0
        })
    }
}

/// The redundant files over all groups.
pub open spec fn spec_dup_files(gs: Seq<Seq<EntryView>>) -> int
    decreases gs.len(),
{
    if gs.len() == 0 {
        0
    } else {
        spec_dup_files(gs.drop_last()) + spec_group_dup_files(gs.last())
    }
}

/// The bytes a deduplication frees: for each group, one copy is kept and
/// the rest of its members' sizes are recovered.
pub open spec fn spec_saved_size(gs: Seq<Seq<EntryView>>) -> int
    decreases gs.len(),
{
    if gs.len() == 0 {
        0
    } else {
        spec_saved_size(gs.drop_last()) + (if gs.last().len() >= 1 {
            (gs.last().len() - 1) * gs.last()[0].size
        } else {
            0
        })
    }
}

proof fn lemma_group_dup_files_nonneg(g: Seq<EntryView>)
    ensures
        spec_group_dup_files(g) >= 0,
    decreases g.len(),
{
    if g.len() > 1 {
        lemma_group_dup_files_nonneg(g.drop_last());
    }
}

proof fn lemma_stats_nonneg(gs: Seq<Seq<EntryView>>)
    ensures
        spec_dup_inodes(gs) >= 0,
        spec_dup_files(gs) >= 0,
        spec_saved_size(gs) >= 0,
    decreases gs.len(),
{
    if gs.len() > 0 {
        lemma_stats_nonneg(gs.drop_last());
        lemma_group_dup_files_nonneg(gs.last());
        if gs.last().len() >= 1 {
            assert((gs.last().len() - 1) * gs.last()[0].size >= 0) by (nonlinear_arith)
                requires
                    gs.last().len() >= 1,
            ;
        }
    }
}

fn sat_add_usize(a: usize, b: usize) -> (r: usize)
    ensures
        a + b <= usize::MAX ==> r == a + b,
        a + b > usize::MAX ==> r == usize::MAX,
{
    if a <= usize::MAX - b {
        a + b
    } else {
        usize::MAX
    }
}

fn sat_add_u64(a: u64, b: u64) -> (r: u64)
    ensures
        a + b <= u64::MAX ==> r == a + b,
        a + b > u64::MAX ==> r == u64::MAX,
{
    if a <= u64::MAX - b {
        a + b
    } else {
        u64::MAX
    }
}

fn sat_mul_u64(a: u64, b: u64) -> (r: u64)
    ensures
        a * b <= u64::MAX ==> r == a * b,
        a * b > u64::MAX ==> r == u64::MAX,
{
    proof {
        assert((a as int) * (b as int) < 0x100000000000000000000000000000000int) by (nonlinear_arith)
            requires
                a <= 0xffffffffffffffffu64,
                b <= 0xffffffffffffffffu64,
        ;
    }
    let p = (a as u128) * (b as u128);
    if p > u64::MAX as u128 {
        u64::MAX
    } else {
        p as u64
    }
}

/// Counts what a deduplication of these groups recovers: redundant
/// files, redundant inodes, and the bytes freed.  Each count saturates
/// at its machine limit instead of overflowing.
pub fn dedup_stats(groups: &Vec<Vec<FSEntry>>) -> (r: (usize, usize, u64))
    ensures
        ({
            let gv = group_views(groups@);
            &&& (spec_dup_files(gv) <= usize::MAX ==> r.0 == spec_dup_files(gv))
            &&& (spec_dup_files(gv) > usize::MAX ==> r.0 == usize::MAX)
            &&& (spec_dup_inodes(gv) <= usize::MAX ==> r.1 == spec_dup_inodes(gv))
            &&& (spec_dup_inodes(gv) > usize::MAX ==> r.1 == usize::MAX)
            &&& (spec_saved_size(gv) <= u64::MAX ==> r.2 == spec_saved_size(gv))
            &&& (spec_saved_size(gv) > u64::MAX ==> r.2 == u64::MAX)
        }),
{
    let ghost gv = group_views(groups@);
    let ng = groups.len();
    let mut n_files: usize = 0;
    let mut n_inodes: usize = 0;
    let mut saved: u64 = 0;
    let mut g: usize = 0;
    proof {
        assert(gv.take(0) =~= Seq::<Seq<EntryView>>::empty());
    }
    while g < ng
        invariant
            g <= ng,
            ng == groups@.len(),
            gv == group_views(groups@),
            spec_dup_files(gv.take(g as int)) <= usize::MAX ==> n_files == spec_dup_files(
                gv.take(g as int),
            ),
            spec_dup_files(gv.take(g as int)) > usize::MAX ==> n_files == usize::MAX,
            spec_dup_inodes(gv.take(g as int)) <= usize::MAX ==> n_inodes == spec_dup_inodes(
                gv.take(g as int),
            ),
            spec_dup_inodes(gv.take(g as int)) > usize::MAX ==> n_inodes == usize::MAX,
            spec_saved_size(gv.take(g as int)) <= u64::MAX ==> saved == spec_saved_size(
                gv.take(g as int),
            ),
            spec_saved_size(gv.take(g as int)) > u64::MAX ==> saved == u64::MAX,
        decreases ng - g,
    {
        let group = &groups[g];
        let ghost gvg = gv[g as int];
        proof {
            assert(gvg == entry_views(group@));
            lemma_stats_nonneg(gv.take(g as int));
            lemma_group_dup_files_nonneg(gvg);
            assert(gv.take(g + 1).drop_last() =~= gv.take(g as int));
            assert(gv.take(g + 1).last() == gvg);
        }
        let glen = group.len();
        if glen >= 1 {
            n_inodes = sat_add_usize(n_inodes, glen - 1);
            // the bytes recovered by this group
            proof {
                assert(gvg[0] == group@[0]@);
                assert((glen - 1) * gvg[0].size >= 0) by (nonlinear_arith)
                    requires
                        glen >= 1,
                ;
            }
            let recovered = sat_mul_u64((glen - 1) as u64, group[0].size);
            saved = sat_add_u64(saved, recovered);
            // the redundant files of this group
            let mut g_files: usize = 0;
            let mut e: usize = 1;
            proof {
                assert(gvg.take(1).len() <= 1);
                assert(spec_group_dup_files(gvg.take(1)) == 0);
            }
            while e < glen
                invariant
                    1 <= e <= glen,
                    glen == group@.len(),
                    glen == gvg.len(),
                    gvg == entry_views(group@),
                    group == &groups@[g as int],
                    g < ng,
                    ng == groups@.len(),
                    gv == group_views(groups@),
                    spec_group_dup_files(gvg.take(e as int)) <= usize::MAX ==> g_files
                        == spec_group_dup_files(gvg.take(e as int)),
                    spec_group_dup_files(gvg.take(e as int)) > usize::MAX ==> g_files
                        == usize::MAX,
                decreases glen - e,
            {
                proof {
                    lemma_group_dup_files_nonneg(gvg.take(e as int));
                    assert(gvg.take(e + 1).drop_last() =~= gvg.take(e as int));
                    assert(gvg.take(e + 1).last() == gvg[e as int]);
                    assert(gvg[e as int] == group@[e as int]@);
                    assert(gvg[e as int].paths.len() == group@[e as int].paths@.len());
                }
                g_files = sat_add_usize(g_files, group[e].paths.len());
                e += 1;
            }
            proof {
                assert(gvg.take(glen as int) =~= gvg);
            }
            n_files = sat_add_usize(n_files, g_files);
            proof {
                if spec_group_dup_files(gvg) > usize::MAX {
                    assert(g_files == usize::MAX);
                }
                lemma_group_dup_files_nonneg(gvg);
            }
        } else {
            proof {
                assert(spec_group_dup_files(gvg) == 0);
            }
        }
        g += 1;
    }
    proof {
        assert(gv.take(ng as int) =~= gv);
    }
    (n_files, n_inodes, saved)
}

/// A member of a group occurs in the flattened sequence.
proof fn lemma_flatten_member(gs: Seq<Seq<EntryView>>, g: int, i: int)
    requires
        0 <= g < gs.len(),
        0 <= i < gs[g].len(),
    ensures
        exists|fi: int| 0 <= fi < gs.flatten().len() && #[trigger] gs.flatten()[fi] == gs[g][i],
    decreases g,
{
    if g == 0 {
        assert(gs.flatten() == gs[0] + gs.drop_first().flatten());
        assert(gs.flatten()[i] == gs[g][i]);
    } else {
        lemma_flatten_member(gs.drop_first(), g - 1, i);
        let fi0 = choose|fi: int|
            0 <= fi < gs.drop_first().flatten().len() && #[trigger] gs.drop_first().flatten()[fi]
                == gs.drop_first()[g - 1][i];
        assert(gs.flatten() == gs[0] + gs.drop_first().flatten());
        assert(gs.flatten()[gs[0].len() + fi0] == gs.drop_first().flatten()[fi0]);
        assert(gs.drop_first()[g - 1] == gs[g]);
    }
}

} // verus!
