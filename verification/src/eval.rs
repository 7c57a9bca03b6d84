//! The evaluator: applies a heuristic function to every entry of a
//! batch, in device-and-inode order, and assigns the result.  The
//! heuristic function is plugged in by the caller; all the evaluator
//! promises is that it only ever rewrites `hvalue`.

use vstd::prelude::*;

use vstd::multiset::Multiset;

use crate::errors::DedupError;
use crate::fs_entry::{entry_views, EntryView, FSEntry, Heuristic};
use crate::order::entries_sorted;
use crate::search::{remove_unique_entries_by_heuristic, survivor_multiset};

verus! {

broadcast use vstd::multiset::group_multiset_axioms, vstd::seq_lib::group_to_multiset_ensures;

/// Everything about an entry except its heuristic value: what the
/// evaluator must leave untouched.
pub ghost struct EntryCore {
    pub dev: u64,
    pub inode: u64,
    pub size: u64,
    pub priority: u32,
    pub paths: Seq<Seq<char>>,
}

pub open spec fn core_of(e: EntryView) -> EntryCore {
    EntryCore { dev: e.dev, inode: e.inode, size: e.size, priority: e.priority, paths: e.paths }
}

pub open spec fn core_views(s: Seq<EntryView>) -> Seq<EntryCore> {
    s.map_values(|e: EntryView| core_of(e))
}

/// The device and inode pair that identifies an entry across stages.
pub open spec fn loc_views(s: Seq<EntryView>) -> Seq<(u64, u64)> {
    s.map_values(|e: EntryView| (e.dev, e.inode))
}

/// Ascending by device, then inode: the read order that minimises seeks.
pub open spec fn loc_le(a: EntryView, b: EntryView) -> bool {
    a.dev < b.dev || (a.dev == b.dev && a.inode <= b.inode)
}

pub open spec fn location_sorted(s: Seq<EntryView>) -> bool {
    forall|i: int, j: int| 0 <= i < j < s.len() ==> loc_le(#[trigger] s[i], #[trigger] s[j])
}

/// True strict order used while inserting.
fn loc_lt_exec(a: &FSEntry, b: &FSEntry) -> (r: bool)
    ensures
        r == (a@.dev < b@.dev || (a@.dev == b@.dev && a@.inode < b@.inode)),
{
    a.dev < b.dev || (a.dev == b.dev && a.inode < b.inode)
}

/// Sorts entries ascending by device and inode; a permutation of the
/// input.
pub fn sort_entries_by_location(entries: Vec<FSEntry>) -> (r: Vec<FSEntry>)
    ensures
        location_sorted(entry_views(r@)),
        entry_views(r@).to_multiset() == entry_views(entries@).to_multiset(),
        r@.len() == entries@.len(),
{
    let ghost m0 = entry_views(entries@).to_multiset();
    let ghost n0 = entries@.len();
    let mut input = entries;
    let mut out: Vec<FSEntry> = Vec::new();
    proof {
        assert(entry_views(out@).to_multiset().add(entry_views(input@).to_multiset()) =~= m0);
    }
    while input.len() > 0
        invariant
            location_sorted(entry_views(out@)),
            entry_views(out@).to_multiset().add(entry_views(input@).to_multiset()) == m0,
            out@.len() + input@.len() == n0,
        decreases input@.len(),
    {
        let ghost in_prev = input@;
        let e = input.remove(0);
        proof {
            assert(entry_views(in_prev)[0] == e@);
            assert(entry_views(input@) =~= entry_views(in_prev).remove(0));
        }
        let mut pos: usize = 0;
        loop
            invariant
                pos <= out@.len(),
                forall|k: int| 0 <= k < pos ==> loc_le(#[trigger] entry_views(out@)[k], e@),
                location_sorted(entry_views(out@)),
            ensures
                pos <= out@.len(),
                forall|k: int| 0 <= k < pos ==> loc_le(#[trigger] entry_views(out@)[k], e@),
                pos == out@.len() || (e@.dev < entry_views(out@)[pos as int].dev || (e@.dev
                    == entry_views(out@)[pos as int].dev && e@.inode < entry_views(
                    out@,
                )[pos as int].inode)),
            decreases out@.len() - pos,
        {
            if pos == out.len() {
                break ;
            }
            let less = loc_lt_exec(&e, &out[pos]);
            proof {
                assert(entry_views(out@)[pos as int] == out@[pos as int]@);
            }
            if less {
                break ;
            }
            pos += 1;
        }
        let ghost out_prev = out@;
        out.insert(pos, e);
        proof {
            let vs = entry_views(out_prev);
            let vs2 = entry_views(out@);
            assert(vs2 =~= vs.insert(pos as int, e@));
            assert(vs.insert(pos as int, e@).to_multiset() == vs.to_multiset().insert(e@));
            assert forall|i: int, j: int| 0 <= i < j < vs2.len() implies loc_le(
                #[trigger] vs2[i],
                #[trigger] vs2[j],
            ) by {
                if i < pos {
                    assert(vs2[i] == vs[i]);
                }
                if i == pos {
                    assert(vs2[i] == e@);
                }
                if i > pos {
                    assert(vs2[i] == vs[i - 1]);
                }
                if j < pos {
                    assert(vs2[j] == vs[j]);
                }
                if j == pos {
                    assert(vs2[j] == e@);
                }
                if j > pos {
                    assert(vs2[j] == vs[j - 1]);
                }
            }
            assert(entry_views(in_prev).to_multiset().count(e@) > 0) by {
                assert(entry_views(in_prev).contains(e@));
            }
            assert(entry_views(out@).to_multiset().add(entry_views(input@).to_multiset()) =~= m0);
        }
    }
    proof {
        assert(entry_views(input@) =~= Seq::<EntryView>::empty());
        assert(entry_views(out@).to_multiset() =~= m0);
    }
    out
}

/// Applies a caller-supplied heuristic function to a batch of entries.
pub struct Evaluator<F: Fn(&FSEntry) -> Result<Heuristic, DedupError>> {
    pub func: F,
    pub abort_on_error: bool,
}

impl<F: Fn(&FSEntry) -> Result<Heuristic, DedupError>> Evaluator<F> {
    pub fn new(abort_on_error: bool, func: F) -> (r: Self)
        ensures
            r.abort_on_error == abort_on_error,
            r.func == func,
    {
        Evaluator { func, abort_on_error }
    }

    /// Sorts the batch by device and inode, then evaluates the heuristic
    /// on each entry and overwrites its `hvalue` with the result.  A
    /// failing entry keeps its previous value in sloppy mode and aborts
    /// the batch in strict mode.  Everything but `hvalue` is preserved.
    pub fn evaluate(&self, entries: Vec<FSEntry>) -> (r: Result<Vec<FSEntry>, DedupError>)
        requires
            forall|e: &FSEntry| call_requires(self.func, (e,)),
        ensures
            r matches Err(_) ==> self.abort_on_error,
            !self.abort_on_error ==> r matches Ok(_),
            match r {
                Ok(v) => core_views(entry_views(v@)).to_multiset() == core_views(
                    entry_views(entries@),
                ).to_multiset() && location_sorted(entry_views(v@)) && v@.len() == entries@.len(),
                Err(_) => true,
            },
    {
        let ghost cores0 = core_views(entry_views(entries@)).to_multiset();
        let mut v = sort_entries_by_location(entries);
        proof {
            lemma_core_views_multiset(entry_views(v@), entry_views(entries@));
        }
        let n = v.len();
        let mut i: usize = 0;
        while i < n
            invariant
                i <= n,
                n == v@.len(),
                forall|e: &FSEntry| call_requires(self.func, (e,)),
                core_views(entry_views(v@)).to_multiset() == cores0,
                location_sorted(entry_views(v@)),
            decreases n - i,
        {
            let ghost vs_prev = v@;
            let ghost v_prev = entry_views(v@);
            let hres = (self.func)(&v[i]);
            match hres {
                Ok(h) => {
                    v[i].hvalue = h;
                    proof {
                        let v_now = entry_views(v@);
                        assert forall|j: int| 0 <= j < v_now.len() implies core_of(#[trigger] v_now[j])
                            == core_of(v_prev[j]) && v_now[j].dev == v_prev[j].dev && v_now[j].inode
                            == v_prev[j].inode by {
                            if j != i {
                                assert(v@[j] == vs_prev[j]);
                            } else {
                                assert(v@[j].dev == vs_prev[j].dev);
                                assert(v@[j].paths == vs_prev[j].paths);
                            }
                        }
                        assert(core_views(v_now) =~= core_views(v_prev));
                        assert forall|a: int, b: int| 0 <= a < b < v_now.len() implies loc_le(
                            #[trigger] v_now[a],
                            #[trigger] v_now[b],
                        ) by {
                            assert(loc_le(v_prev[a], v_prev[b]));
                        }
                    }
                },
                Err(err) => {
                    if self.abort_on_error {
                        return Err(err);
                    }
                },
            }
            i += 1;
        }
        Ok(v)
    }
}

/// Equal view multisets have equal core multisets.
proof fn lemma_core_views_multiset(s1: Seq<EntryView>, s2: Seq<EntryView>)
    requires
        s1.to_multiset() == s2.to_multiset(),
    ensures
        core_views(s1).to_multiset() == core_views(s2).to_multiset(),
{
    crate::search::lemma_map_to_multiset_subset(s1, s2, |e: EntryView| core_of(e));
    crate::search::lemma_map_to_multiset_subset(s2, s1, |e: EntryView| core_of(e));
    assert(core_views(s1).to_multiset() =~= core_views(s2).to_multiset()) by {
        assert(s1.map_values(|e: EntryView| core_of(e)).to_multiset().subset_of(
            s2.map_values(|e: EntryView| core_of(e)).to_multiset(),
        ));
        assert(s2.map_values(|e: EntryView| core_of(e)).to_multiset().subset_of(
            s1.map_values(|e: EntryView| core_of(e)).to_multiset(),
        ));
    }
}

/// Evaluates a heuristic over a batch, then drops the entries left alone
/// in their equivalence class.  The survivors are exactly the non-unique
/// entries of some evaluation of the input: a batch whose identities —
/// everything except `hvalue` — are the input's own.
pub fn remove_unique_entries_by_heuristic_fn<F: Fn(&FSEntry) -> Result<Heuristic, DedupError>>(
    entries: Vec<FSEntry>,
    cmp_dev: bool,
    abort_on_error: bool,
    func: F,
) -> (r: Result<Vec<FSEntry>, DedupError>)
    requires
        forall|e: &FSEntry| call_requires(func, (e,)),
    ensures
        r matches Err(_) ==> abort_on_error,
        !abort_on_error ==> r matches Ok(_),
        match r {
            Ok(v) => {
                &&& entries_sorted(entry_views(v@), cmp_dev)
                &&& exists|ev: Seq<EntryView>|
                    {
                        &&& core_views(ev).to_multiset() == core_views(
                            entry_views(entries@),
                        ).to_multiset()
                        &&& entry_views(v@).to_multiset() == survivor_multiset(
                            ev.to_multiset(),
                            cmp_dev,
                        )
                    }
                &&& core_views(entry_views(v@)).to_multiset().subset_of(
                    core_views(entry_views(entries@)).to_multiset(),
                )
                &&& loc_views(entry_views(v@)).to_multiset().subset_of(
                    loc_views(entry_views(entries@)).to_multiset(),
                )
            },
            Err(_) => true,
        },
{
    let ghost in_views = entry_views(entries@);
    let eval = Evaluator::new(abort_on_error, func);
    let evaluated = match eval.evaluate(entries) {
        Ok(v) => v,
        Err(e) => {
            return Err(e);
        },
    };
    let ghost ev = entry_views(evaluated@);
    let result = remove_unique_entries_by_heuristic(evaluated, cmp_dev);
    proof {
        let out = entry_views(result@);
        crate::search::lemma_survivors_subset(ev.to_multiset(), cmp_dev);
        // the survivors' locations are a sub-multiset of the evaluated
        // batch's, whose locations are the input's own
        crate::search::lemma_map_to_multiset_subset(out, ev, |e: EntryView| (e.dev, e.inode));
        assert(out.map_values(|e: EntryView| (e.dev, e.inode)) =~= loc_views(out));
        assert(ev.map_values(|e: EntryView| (e.dev, e.inode)) =~= loc_views(ev));
        lemma_loc_of_core(ev, in_views);
        assert(loc_views(out).to_multiset().subset_of(loc_views(in_views).to_multiset()));
        crate::search::lemma_map_to_multiset_subset(out, ev, |e: EntryView| core_of(e));
        assert(out.map_values(|e: EntryView| core_of(e)) =~= core_views(out));
        assert(ev.map_values(|e: EntryView| core_of(e)) =~= core_views(ev));
        assert(core_views(out).to_multiset().subset_of(core_views(in_views).to_multiset()));
    }
    Ok(result)
}

/// Equal core multisets have equal location multisets.
proof fn lemma_loc_of_core(s1: Seq<EntryView>, s2: Seq<EntryView>)
    requires
        core_views(s1).to_multiset() == core_views(s2).to_multiset(),
    ensures
        loc_views(s1).to_multiset() == loc_views(s2).to_multiset(),
{
    crate::search::lemma_map_to_multiset_subset(
        core_views(s1),
        core_views(s2),
        |c: EntryCore| (c.dev, c.inode),
    );
    crate::search::lemma_map_to_multiset_subset(
        core_views(s2),
        core_views(s1),
        |c: EntryCore| (c.dev, c.inode),
    );
    assert(core_views(s1).map_values(|c: EntryCore| (c.dev, c.inode)) =~= loc_views(s1));
    assert(core_views(s2).map_values(|c: EntryCore| (c.dev, c.inode)) =~= loc_views(s2));
    assert(loc_views(s1).to_multiset() =~= loc_views(s2).to_multiset());
}


/// Some entry of the sequence carries exactly this core.
pub open spec fn has_core_witness(s: Seq<EntryView>, c: EntryCore) -> bool {
    exists|j: int| 0 <= j < s.len() && core_of(#[trigger] s[j]) == c
}

/// A core sub-multiset relation lets every output entry borrow the
/// well-formedness of some input entry.
pub proof fn lemma_core_property_transfer(s_out: Seq<EntryView>, s_in: Seq<EntryView>)
    requires
        core_views(s_out).to_multiset().subset_of(core_views(s_in).to_multiset()),
    ensures
        forall|i: int|
            #![trigger s_out[i]]
            0 <= i < s_out.len() ==> has_core_witness(s_in, core_of(s_out[i])),
{
    assert forall|i: int|
        #![trigger s_out[i]]
        0 <= i < s_out.len() implies has_core_witness(s_in, core_of(s_out[i])) by {
        let c = core_of(s_out[i]);
        assert(core_views(s_out)[i] == c);
        assert(core_views(s_out).contains(c));
        assert(core_views(s_out).to_multiset().count(c) > 0);
        assert(core_views(s_in).to_multiset().count(c) > 0);
        assert(core_views(s_in).contains(c));
        let j = choose|j: int| 0 <= j < core_views(s_in).len() && core_views(s_in)[j] == c;
        assert(core_of(s_in[j]) == c);
    }
}

} // verus!
