//! The group algebra shared by every pipeline stage: sorting by the
//! stage comparator, removal of entries alone in their equivalence
//! class, partitioning into duplicate groups, and duplicate counting.

use vstd::prelude::*;

use vstd::multiset::Multiset;

use crate::fs_entry::{entry_views, EntryView, FSEntry};
use crate::order::{
    entries_sorted, entry_equiv, entry_lt, heur_cmp, lemma_entry_order, u64_cmp,
};

verus! {

broadcast use vstd::multiset::group_multiset_axioms, vstd::seq_lib::group_to_multiset_ensures;

/// Compares two entries under the stage comparator: device first when
/// `cmp_dev` is set, then size, then the current heuristic value.
pub fn compare_entries(a: &FSEntry, b: &FSEntry, cmp_dev: bool) -> (r: core::cmp::Ordering)
    ensures
        (r == core::cmp::Ordering::Less) == entry_lt(a@, b@, cmp_dev),
        (r == core::cmp::Ordering::Greater) == entry_lt(b@, a@, cmp_dev),
        (r == core::cmp::Ordering::Equal) == entry_equiv(a@, b@, cmp_dev),
{
    if cmp_dev {
        let c = u64_cmp(a.dev, b.dev);
        if !matches!(c, core::cmp::Ordering::Equal) {
            return c;
        }
    }
    let c = u64_cmp(a.size, b.size);
    if !matches!(c, core::cmp::Ordering::Equal) {
        return c;
    }
    heur_cmp(&a.hvalue, &b.hvalue)
}

/// Sorts entries by the stage comparator; the result is a permutation of
/// the input.
pub fn sort_entries(entries: Vec<FSEntry>, cmp_dev: bool) -> (r: Vec<FSEntry>)
    ensures
        entries_sorted(entry_views(r@), cmp_dev),
        entry_views(r@).to_multiset() == entry_views(entries@).to_multiset(),
        r@.len() == entries@.len(),
{
    proof {
        lemma_entry_order(cmp_dev);
    }
    let ghost m0 = entry_views(entries@).to_multiset();
    let ghost n0 = entries@.len();
    let mut input = entries;
    let mut out: Vec<FSEntry> = Vec::new();
    proof {
        assert(entry_views(out@).to_multiset().add(entry_views(input@).to_multiset()) =~= m0);
    }
    while input.len() > 0
        invariant
            entries_sorted(entry_views(out@), cmp_dev),
            entry_views(out@).to_multiset().add(entry_views(input@).to_multiset()) == m0,
            out@.len() + input@.len() == n0,
        decreases input@.len(),
    {
        let ghost in_prev = input@;
        let e = input.remove(0);
        proof {
            assert(entry_views(in_prev)[0] == e@);
            assert(entry_views(input@) =~= entry_views(in_prev).remove(0));
            assert(entry_views(input@).to_multiset() == entry_views(in_prev).to_multiset().remove(
                e@,
            ));
        }
        let mut pos: usize = 0;
        loop
            invariant
                pos <= out@.len(),
                forall|k: int|
                    0 <= k < pos ==> !entry_lt(e@, #[trigger] entry_views(out@)[k], cmp_dev),
                entries_sorted(entry_views(out@), cmp_dev),
            ensures
                pos <= out@.len(),
                forall|k: int|
                    0 <= k < pos ==> !entry_lt(e@, #[trigger] entry_views(out@)[k], cmp_dev),
                pos == out@.len() || entry_lt(e@, entry_views(out@)[pos as int], cmp_dev),
            decreases out@.len() - pos,
        {
            if pos == out.len() {
                break ;
            }
            let c = compare_entries(&e, &out[pos], cmp_dev);
            proof {
                assert(entry_views(out@)[pos as int] == out@[pos as int]@);
            }
            if matches!(c, core::cmp::Ordering::Less) {
                break ;
            }
            pos += 1;
        }
        let ghost out_prev = out@;
        out.insert(pos, e);
        proof {
            lemma_entry_order(cmp_dev);
            let vs = entry_views(out_prev);
            let vs2 = entry_views(out@);
            assert(vs2 =~= vs.insert(pos as int, e@));
            assert(vs.insert(pos as int, e@).to_multiset() == vs.to_multiset().insert(e@));
            // the new sequence is still sorted
            assert forall|i: int, j: int| 0 <= i < j < vs2.len() implies !entry_lt(
                vs2[j],
                vs2[i],
                cmp_dev,
            ) by {
                if i < pos && j == pos {
                    assert(vs2[i] == vs[i]);
                    assert(vs2[j] == e@);
                } else if i == pos && j > pos {
                    assert(vs2[i] == e@);
                    assert(vs2[j] == vs[j - 1]);
                    if entry_lt(vs[j - 1], e@, cmp_dev) {
                        assert(entry_lt(e@, vs[pos as int], cmp_dev));
                        assert(j - 1 >= pos);
                        if j - 1 == pos {
                            assert(entry_lt(e@, e@, cmp_dev));
                            assert(entry_equiv(e@, e@, cmp_dev));
                            assert(false);
                        } else {
                            assert(entry_lt(vs[j - 1], vs[pos as int], cmp_dev));
                            assert(false);
                        }
                    }
                } else if i < pos && j > pos {
                    assert(vs2[i] == vs[i]);
                    assert(vs2[j] == vs[j - 1]);
                } else if i > pos {
                    assert(vs2[i] == vs[i - 1]);
                    assert(vs2[j] == vs[j - 1]);
                } else {
                    assert(vs2[i] == vs[i]);
                    assert(vs2[j] == vs[j]);
                }
            }
            // the permutation bookkeeping
            assert(entry_views(in_prev).to_multiset().count(e@) > 0) by {
                assert(entry_views(in_prev).contains(e@));
            }
            assert(entry_views(out@).to_multiset().add(entry_views(input@).to_multiset()) =~= m0);
        }
    }
    proof {
        assert(entry_views(input@).to_multiset() =~= Multiset::<EntryView>::empty()) by {
            assert(entry_views(input@).len() == 0);
            assert(entry_views(input@) =~= Seq::<EntryView>::empty());
        }
        assert(entry_views(out@).to_multiset() =~= m0);
    }
    out
}

/// An entry has a peer when some other occurrence in the collection is
/// equivalent to it under the stage comparator: either a second copy of
/// the very same record, or a distinct record in the same class.
pub open spec fn has_peer(m: Multiset<EntryView>, x: EntryView, cmp_dev: bool) -> bool {
    exists|y: EntryView|
        entry_equiv(x, y, cmp_dev) && (if y == x {
            #[trigger] m.count(y) >= 2
        } else {
            m.count(y) > 0
        })
}

/// The entries that are not alone in their equivalence class.
pub open spec fn survivor_multiset(m: Multiset<EntryView>, cmp_dev: bool) -> Multiset<EntryView> {
    m.filter(|x: EntryView| has_peer(m, x, cmp_dev))
}

/// In a sorted sequence, an entry stays exactly when it equals a neighbour.
pub open spec fn keep_at(s: Seq<EntryView>, i: int, cmp_dev: bool) -> bool {
    ||| (i > 0 && entry_equiv(s[i - 1], s[i], cmp_dev))
    ||| (i + 1 < s.len() && entry_equiv(s[i], s[i + 1], cmp_dev))
}

proof fn lemma_filter_insert(m: Multiset<EntryView>, a: EntryView, p: spec_fn(EntryView) -> bool)
    ensures
        m.insert(a).filter(p) == if p(a) {
            m.filter(p).insert(a)
        } else {
            m.filter(p)
        },
{
    if p(a) {
        assert(m.insert(a).filter(p) =~= m.filter(p).insert(a));
    } else {
        assert(m.insert(a).filter(p) =~= m.filter(p));
    }
}

/// A second occurrence at index `j` makes `s[i]` a surviving entry.
proof fn lemma_peer_from_index(s: Seq<EntryView>, i: int, j: int, cmp_dev: bool)
    requires
        0 <= i < s.len(),
        0 <= j < s.len(),
        i != j,
        entry_equiv(s[i], s[j], cmp_dev),
    ensures
        has_peer(s.to_multiset(), s[i], cmp_dev),
{
    let m = s.to_multiset();
    if s[j] == s[i] {
        assert(m.count(s[i]) > 0) by {
            assert(s.contains(s[i]));
        }
        let sr = s.remove(i);
        assert(sr.to_multiset() == m.remove(s[i]));
        let jr = if j < i {
            j
        } else {
            j - 1
        };
        assert(sr[jr] == s[j]);
        assert(sr.contains(s[i]));
        assert(sr.to_multiset().count(s[i]) > 0);
        assert(m.count(s[i]) >= 2);
        assert(entry_equiv(s[i], s[i], cmp_dev));
    } else {
        assert(m.count(s[j]) > 0) by {
            assert(s.contains(s[j]));
        }
    }
}

/// From a surviving entry at index `i`, recover a second index in its class.
proof fn lemma_peer_index(s: Seq<EntryView>, i: int, cmp_dev: bool) -> (j: int)
    requires
        0 <= i < s.len(),
        has_peer(s.to_multiset(), s[i], cmp_dev),
    ensures
        0 <= j < s.len(),
        j != i,
        entry_equiv(s[i], s[j], cmp_dev),
{
    let m = s.to_multiset();
    let y = choose|y: EntryView|
        entry_equiv(s[i], y, cmp_dev) && (if y == s[i] {
            m.count(y) >= 2
        } else {
            m.count(y) > 0
        });
    if y == s[i] {
        let sr = s.remove(i);
        assert(sr.to_multiset() == m.remove(s[i]));
        assert(m.count(y) >= 2);
        assert(sr.to_multiset().count(y) > 0);
        assert(sr.contains(y));
        let jr = choose|jr: int| 0 <= jr < sr.len() && sr[jr] == y;
        let j = if jr < i {
            jr
        } else {
            jr + 1
        };
        assert(s[j] == sr[jr]);
        j
    } else {
        assert(m.count(y) > 0);
        assert(s.contains(y));
        let j = choose|j: int| 0 <= j < s.len() && s[j] == y;
        assert(s[j] != s[i]);
        j
    }
}

/// In a sorted sequence the survivors are exactly the entries that equal
/// a neighbour.
proof fn lemma_keep_iff_peer(s: Seq<EntryView>, i: int, cmp_dev: bool)
    requires
        entries_sorted(s, cmp_dev),
        0 <= i < s.len(),
    ensures
        keep_at(s, i, cmp_dev) <==> has_peer(s.to_multiset(), s[i], cmp_dev),
{
    lemma_entry_order(cmp_dev);
    if keep_at(s, i, cmp_dev) {
        if i > 0 && entry_equiv(s[i - 1], s[i], cmp_dev) {
            lemma_peer_from_index(s, i, i - 1, cmp_dev);
        } else {
            lemma_peer_from_index(s, i, i + 1, cmp_dev);
        }
    }
    if has_peer(s.to_multiset(), s[i], cmp_dev) {
        let j = lemma_peer_index(s, i, cmp_dev);
        if j < i {
            assert(!entry_lt(s[i], s[i - 1], cmp_dev));
            if entry_lt(s[i - 1], s[i], cmp_dev) {
                assert(entry_lt(s[i - 1], s[j], cmp_dev));
                if j < i - 1 {
                    assert(!entry_lt(s[i - 1], s[j], cmp_dev));
                }
                assert(false);
            }
            assert(entry_equiv(s[i - 1], s[i], cmp_dev));
        } else {
            assert(!entry_lt(s[i + 1], s[i], cmp_dev));
            if entry_lt(s[i], s[i + 1], cmp_dev) {
                assert(entry_lt(s[j], s[i + 1], cmp_dev));
                if j > i + 1 {
                    assert(!entry_lt(s[j], s[i + 1], cmp_dev));
                }
                assert(false);
            }
            assert(entry_equiv(s[i], s[i + 1], cmp_dev));
        }
    }
}

/// Returns the entries that are not alone in their equivalence class,
/// sorted by the stage comparator.  Singleton classes are dropped; full
/// classes are kept whole.
pub fn remove_unique_entries_by_heuristic(entries: Vec<FSEntry>, cmp_dev: bool) -> (r: Vec<
    FSEntry,
>)
    ensures
        entries_sorted(entry_views(r@), cmp_dev),
        entry_views(r@).to_multiset() == survivor_multiset(
            entry_views(entries@).to_multiset(),
            cmp_dev,
        ),
{
    let ghost m0 = entry_views(entries@).to_multiset();
    let mut v = sort_entries(entries, cmp_dev);
    let ghost s = entry_views(v@);
    let n = v.len();
    let mut keep: Vec<bool> = Vec::new();
    let mut i: usize = 0;
    while i < n
        invariant
            i <= n,
            n == v@.len(),
            s == entry_views(v@),
            keep@.len() == i,
            forall|k: int| 0 <= k < i ==> keep@[k] == keep_at(s, k, cmp_dev),
        decreases n - i,
    {
        let mut flag = false;
        if i > 0 {
            let c = compare_entries(&v[i - 1], &v[i], cmp_dev);
            proof {
                assert(v@[i - 1]@ == s[i - 1]);
                assert(v@[i as int]@ == s[i as int]);
            }
            if matches!(c, core::cmp::Ordering::Equal) {
                flag = true;
            }
        }
        if !flag && i + 1 < n {
            let c = compare_entries(&v[i], &v[i + 1], cmp_dev);
            proof {
                assert(v@[i as int]@ == s[i as int]);
                assert(v@[i + 1]@ == s[i + 1]);
            }
            if matches!(c, core::cmp::Ordering::Equal) {
                flag = true;
            }
        }
        keep.push(flag);
        i += 1;
    }
    proof {
        assert(s.to_multiset() == m0);
    }
    let ghost pred = |x: EntryView| has_peer(m0, x, cmp_dev);
    let mut result: Vec<FSEntry> = Vec::new();
    let mut k: usize = 0;
    proof {
        assert(entry_views(v@) =~= s.skip(0));
        assert(s.take(0).to_multiset() =~= Multiset::<EntryView>::empty()) by {
            assert(s.take(0) =~= Seq::<EntryView>::empty());
        }
        assert(entry_views(result@).to_multiset() =~= s.take(0).to_multiset().filter(pred));
    }
    while k < n
        invariant
            k <= n,
            n == s.len(),
            keep@.len() == n,
            entries_sorted(s, cmp_dev),
            forall|k2: int| 0 <= k2 < n ==> keep@[k2] == keep_at(s, k2, cmp_dev),
            s.to_multiset() == m0,
            pred == (|x: EntryView| has_peer(m0, x, cmp_dev)),
            k + v@.len() == n,
            entry_views(v@) =~= s.skip(k as int),
            entries_sorted(entry_views(result@), cmp_dev),
            forall|idx: int, j2: int|
                #![trigger entry_views(result@)[idx], s[j2]]
                0 <= idx < entry_views(result@).len() && k <= j2 < n ==> !entry_lt(
                    s[j2],
                    entry_views(result@)[idx],
                    cmp_dev,
                ),
            entry_views(result@).to_multiset() == s.take(k as int).to_multiset().filter(pred),
        decreases n - k,
    {
        let ghost v_prev = v@;
        let ghost res_prev = entry_views(result@);
        let e = v.remove(0);
        proof {
            assert(entry_views(v_prev)[0] == e@);
            assert(e@ == s[k as int]);
            assert(entry_views(v@) =~= entry_views(v_prev).remove(0));
            assert(entry_views(v@) =~= s.skip(k + 1));
            s.lemma_take_succ_push(k as int);
            assert(s.take(k + 1).to_multiset() == s.take(k as int).to_multiset().insert(
                s[k as int],
            ));
            lemma_keep_iff_peer(s, k as int, cmp_dev);
            lemma_filter_insert(s.take(k as int).to_multiset(), s[k as int], pred);
        }
        if keep[k] {
            result.push(e);
            proof {
                assert(entry_views(result@) =~= res_prev.push(s[k as int]));
                assert forall|i1: int, j1: int|
                    0 <= i1 < j1 < entry_views(result@).len() implies !entry_lt(
                    entry_views(result@)[j1],
                    entry_views(result@)[i1],
                    cmp_dev,
                ) by {
                    if j1 == entry_views(result@).len() - 1 {
                        assert(entry_views(result@)[j1] == s[k as int]);
                        assert(entry_views(result@)[i1] == res_prev[i1]);
                    }
                }
            }
        }
        k += 1;
    }
    proof {
        assert(s.take(n as int) =~= s);
        assert(entry_views(result@).to_multiset() =~= survivor_multiset(m0, cmp_dev));
    }
    result
}

/// The number of adjacent comparator-equal pairs: in a sorted sequence,
/// the number of redundant inodes.
pub open spec fn spec_dup_entries(s: Seq<EntryView>, cmp_dev: bool) -> int
    decreases s.len(),
{
    if s.len() <= 1 {
        0
    } else {
        spec_dup_entries(s.drop_last(), cmp_dev) + if entry_equiv(
            s[s.len() - 2],
            s[s.len() - 1],
            cmp_dev,
        ) {
            1int
        } else {
            0int
        }
    }
}

/// The paths carried by the later entry of each adjacent equal pair: in a
/// sorted sequence, the number of redundant files.
pub open spec fn spec_dup_files(s: Seq<EntryView>, cmp_dev: bool) -> int
    decreases s.len(),
{
    if s.len() <= 1 {
        0
    } else {
        spec_dup_files(s.drop_last(), cmp_dev) + if entry_equiv(
            s[s.len() - 2],
            s[s.len() - 1],
            cmp_dev,
        ) {
            s[s.len() - 1].paths.len() as int
        } else {
            0int
        }
    }
}

proof fn lemma_spec_dup_files_nonneg(s: Seq<EntryView>, cmp_dev: bool)
    ensures
        spec_dup_files(s, cmp_dev) >= 0,
    decreases s.len(),
{
    if s.len() > 1 {
        lemma_spec_dup_files_nonneg(s.drop_last(), cmp_dev);
    }
}

/// Counts, over adjacent positions, how many entries equal their
/// predecessor and how many files those entries carry.  The file count
/// saturates at the machine limit instead of overflowing.
pub fn count_duplicate_entries_files(entries: &Vec<FSEntry>, cmp_dev: bool) -> (r: (usize, usize))
    ensures
        r.0 == spec_dup_entries(entry_views(entries@), cmp_dev),
        spec_dup_files(entry_views(entries@), cmp_dev) <= usize::MAX ==> r.1 == spec_dup_files(
            entry_views(entries@),
            cmp_dev,
        ),
        spec_dup_files(entry_views(entries@), cmp_dev) > usize::MAX ==> r.1 == usize::MAX,
{
    let ghost s = entry_views(entries@);
    let n = entries.len();
    let mut n_entries: usize = 0;
    let mut n_files: usize = 0;
    if n == 0 {
        return (0, 0);
    }
    let mut i: usize = 1;
    proof {
        assert(s.take(1) =~= seq![s[0]]);
    }
    while i < n
        invariant
            1 <= i <= n,
            n == s.len(),
            s == entry_views(entries@),
            n_entries == spec_dup_entries(s.take(i as int), cmp_dev),
            n_entries < i,
            spec_dup_files(s.take(i as int), cmp_dev) <= usize::MAX ==> n_files == spec_dup_files(
                s.take(i as int),
                cmp_dev,
            ),
            spec_dup_files(s.take(i as int), cmp_dev) > usize::MAX ==> n_files == usize::MAX,
        decreases n - i,
    {
        let ghost tprev = s.take(i as int);
        let ghost tnext = s.take(i + 1);
        proof {
            assert(tnext.drop_last() =~= tprev);
            assert(tnext[tnext.len() - 2] == s[i - 1]);
            assert(tnext[tnext.len() - 1] == s[i as int]);
            lemma_spec_dup_files_nonneg(tprev, cmp_dev);
        }
        let c = compare_entries(&entries[i - 1], &entries[i], cmp_dev);
        proof {
            assert(entries@[i - 1]@ == s[i - 1]);
            assert(entries@[i as int]@ == s[i as int]);
        }
        if matches!(c, core::cmp::Ordering::Equal) {
            n_entries += 1;
            let more = entries[i].paths.len();
            proof {
                assert(s[i as int].paths.len() == more) by {
                    assert(s[i as int].paths == entries@[i as int].paths.deep_view());
                }
            }
            if n_files <= usize::MAX - more {
                n_files += more;
            } else {
                n_files = usize::MAX;
            }
        }
        i += 1;
    }
    proof {
        assert(s.take(n as int) =~= s);
    }
    (n_entries, n_files)
}

/// Law: every survivor keeps a peer among the survivors — the whole
/// equivalence class stays together.
pub proof fn lemma_survivor_has_peer(m: Multiset<EntryView>, cmp_dev: bool)
    ensures
        forall|x: EntryView|
            #[trigger] survivor_multiset(m, cmp_dev).count(x) > 0 ==> has_peer(
                survivor_multiset(m, cmp_dev),
                x,
                cmp_dev,
            ),
{
    let m1 = survivor_multiset(m, cmp_dev);
    assert forall|x: EntryView| #[trigger] m1.count(x) > 0 implies has_peer(m1, x, cmp_dev) by {
        assert(has_peer(m, x, cmp_dev));
        assert(m.count(x) > 0);
        let y = choose|y: EntryView|
            entry_equiv(x, y, cmp_dev) && (if y == x {
                m.count(y) >= 2
            } else {
                m.count(y) > 0
            });
        assert(has_peer(m, y, cmp_dev)) by {
            if y == x {
                assert(entry_equiv(y, y, cmp_dev));
            } else {
                assert(entry_equiv(y, x, cmp_dev));
                assert(if x == y {
                    m.count(x) >= 2
                } else {
                    m.count(x) > 0
                });
            }
        }
        assert(m1.count(y) == m.count(y));
        if y == x {
            assert(m1.count(y) >= 2);
        } else {
            assert(m1.count(y) > 0);
        }
    }
}

/// The position in the flattened sequence where group `g` begins.
pub open spec fn flat_off(gs: Seq<Seq<EntryView>>, g: int) -> int {
    gs.take(g).flatten().len() as int
}

/// Each group member appears in the flattened sequence at its group's
/// offset plus its own index.
pub proof fn lemma_flatten_at(gs: Seq<Seq<EntryView>>, g: int, i: int)
    requires
        0 <= g < gs.len(),
        0 <= i < gs[g].len(),
    ensures
        0 <= flat_off(gs, g) + i < gs.flatten().len(),
        gs.flatten()[flat_off(gs, g) + i] == gs[g][i],
    decreases g,
{
    assert(gs.flatten() == gs[0] + gs.drop_first().flatten());
    if g == 0 {
        assert(gs.take(0) =~= Seq::<Seq<EntryView>>::empty());
        assert(flat_off(gs, 0) == 0);
        assert(gs.flatten()[i] == gs[0][i]);
    } else {
        lemma_flatten_at(gs.drop_first(), g - 1, i);
        assert(gs.drop_first()[g - 1] == gs[g]);
        assert(gs.take(g) =~= seq![gs[0]] + gs.drop_first().take(g - 1));
        vstd::seq_lib::lemma_flatten_concat(seq![gs[0]], gs.drop_first().take(g - 1));
        seq![gs[0]].lemma_flatten_one_element();
        assert(flat_off(gs, g) == gs[0].len() + flat_off(gs.drop_first(), g - 1));
        assert(gs.flatten()[gs[0].len() + (flat_off(gs.drop_first(), g - 1) + i)]
            == gs.drop_first().flatten()[flat_off(gs.drop_first(), g - 1) + i]);
    }
}

/// Any position of the flattened sequence decomposes into a group and a
/// member index at that group's offset.
pub proof fn lemma_flatten_decompose(gs: Seq<Seq<EntryView>>, fi: int) -> (r: (int, int))
    requires
        0 <= fi < gs.flatten().len(),
    ensures
        0 <= r.0 < gs.len(),
        0 <= r.1 < gs[r.0].len(),
        fi == flat_off(gs, r.0) + r.1,
        gs.flatten()[fi] == gs[r.0][r.1],
    decreases gs.len(),
{
    assert(gs.len() > 0) by {
        if gs.len() == 0 {
            assert(gs.flatten().len() == 0);
        }
    }
    assert(gs.flatten() == gs[0] + gs.drop_first().flatten());
    if fi < gs[0].len() {
        assert(gs.take(0) =~= Seq::<Seq<EntryView>>::empty());
        assert(flat_off(gs, 0) == 0);
        assert(gs.flatten()[fi] == gs[0][fi]);
        (0, fi)
    } else {
        let inner = lemma_flatten_decompose(gs.drop_first(), fi - gs[0].len());
        let g = inner.0 + 1;
        let i = inner.1;
        assert(gs.drop_first()[inner.0] == gs[g]);
        assert(gs.take(g) =~= seq![gs[0]] + gs.drop_first().take(inner.0));
        vstd::seq_lib::lemma_flatten_concat(seq![gs[0]], gs.drop_first().take(inner.0));
        seq![gs[0]].lemma_flatten_one_element();
        assert(flat_off(gs, g) == gs[0].len() + flat_off(gs.drop_first(), inner.0));
        assert(gs.flatten()[fi] == gs.drop_first().flatten()[fi - gs[0].len()]);
        (g, i)
    }
}

/// Law: when every flattened entry keeps a peer among the flattened
/// entries — as the survivors of a refinement stage do — no group of a
/// class partition stands alone: each holds at least two members.
pub proof fn lemma_groups_at_least_two(gs: Seq<Seq<EntryView>>, cmp_dev: bool)
    requires
        forall|x: EntryView|
            #[trigger] gs.flatten().to_multiset().count(x) > 0 ==> has_peer(
                gs.flatten().to_multiset(),
                x,
                cmp_dev,
            ),
        forall|g: int| 0 <= g < gs.len() ==> (#[trigger] gs[g]).len() >= 1,
        forall|g: int, i: int, j: int|
            0 <= g < gs.len() && 0 <= i < gs[g].len() && 0 <= j < gs[g].len() ==> entry_equiv(
                #[trigger] gs[g][i],
                #[trigger] gs[g][j],
                cmp_dev,
            ),
        forall|g1: int, g2: int|
            0 <= g1 < gs.len() && 0 <= g2 < gs.len() && g1 != g2 ==> !entry_equiv(
                #[trigger] gs[g1][0],
                #[trigger] gs[g2][0],
                cmp_dev,
            ),
    ensures
        forall|g: int| 0 <= g < gs.len() ==> (#[trigger] gs[g]).len() >= 2,
{
    lemma_entry_order(cmp_dev);
    let flat = gs.flatten();
    let m = flat.to_multiset();
    assert forall|g: int| 0 <= g < gs.len() implies (#[trigger] gs[g]).len() >= 2 by {
        let x = gs[g][0];
        lemma_flatten_at(gs, g, 0);
        assert(flat.contains(x));
        assert(m.count(x) > 0);
        assert(has_peer(m, x, cmp_dev));
        let y = choose|y: EntryView|
            entry_equiv(x, y, cmp_dev) && (if y == x {
                m.count(y) >= 2
            } else {
                m.count(y) > 0
            });
        if y == x {
            let pair = lemma_count_two_indices(flat, x);
            let d1 = lemma_flatten_decompose(gs, pair.0);
            let d2 = lemma_flatten_decompose(gs, pair.1);
            // both occurrences lie in this very group: their heads are in
            // the class of x
            assert(entry_equiv(gs[d1.0][d1.1], gs[d1.0][0], cmp_dev));
            assert(entry_equiv(gs[d2.0][d2.1], gs[d2.0][0], cmp_dev));
            assert(entry_equiv(gs[d1.0][0], gs[g][0], cmp_dev));
            assert(entry_equiv(gs[d2.0][0], gs[g][0], cmp_dev));
            assert(d1.0 == g);
            assert(d2.0 == g);
            assert(d1.1 != d2.1);
            assert(gs[g].len() >= 2);
        } else {
            assert(m.count(y) > 0);
            assert(flat.contains(y));
            let fi = choose|fi: int| 0 <= fi < flat.len() && flat[fi] == y;
            let d = lemma_flatten_decompose(gs, fi);
            assert(entry_equiv(gs[d.0][d.1], gs[d.0][0], cmp_dev));
            assert(entry_equiv(gs[d.0][0], gs[g][0], cmp_dev));
            assert(d.0 == g);
            assert(gs[g][d.1] == y);
            assert(d.1 != 0);
            assert(gs[g].len() >= 2);
        }
    }
}

/// Law: removing unique entries is idempotent — the survivor multiset is
/// a fixed point, so a second pass removes nothing further.
pub proof fn lemma_remove_unique_idempotent(m: Multiset<EntryView>, cmp_dev: bool)
    ensures
        survivor_multiset(survivor_multiset(m, cmp_dev), cmp_dev) == survivor_multiset(m, cmp_dev),
{
    let m1 = survivor_multiset(m, cmp_dev);
    assert forall|x: EntryView| #[trigger] m1.count(x) > 0 implies has_peer(m1, x, cmp_dev) by {
        assert(has_peer(m, x, cmp_dev));
        assert(m.count(x) > 0);
        let y = choose|y: EntryView|
            entry_equiv(x, y, cmp_dev) && (if y == x {
                m.count(y) >= 2
            } else {
                m.count(y) > 0
            });
        assert(has_peer(m, y, cmp_dev)) by {
            if y == x {
                assert(entry_equiv(y, y, cmp_dev));
            } else {
                assert(entry_equiv(y, x, cmp_dev));
                assert(if x == y {
                    m.count(x) >= 2
                } else {
                    m.count(x) > 0
                });
            }
        }
        assert(m1.count(y) == m.count(y));
        if y == x {
            assert(m1.count(y) >= 2);
        } else {
            assert(m1.count(y) > 0);
        }
    }
    assert(survivor_multiset(m1, cmp_dev) =~= m1);
}

/// Law: a stage's survivors are a sub-multiset of that stage's input —
/// each refinement only ever narrows the candidate set.
pub proof fn lemma_survivors_subset(m: Multiset<EntryView>, cmp_dev: bool)
    ensures
        survivor_multiset(m, cmp_dev).subset_of(m),
        forall|x: EntryView| #[trigger] survivor_multiset(m, cmp_dev).count(x) <= m.count(x),
{
    assert forall|x: EntryView| #[trigger] survivor_multiset(m, cmp_dev).count(x) <= m.count(
        x,
    ) by {
        assert(survivor_multiset(m, cmp_dev).count(x) == if has_peer(m, x, cmp_dev) {
            m.count(x)
        } else {
            0
        });
    }
}

/// A sub-multiset relation between sequences survives mapping a function
/// over both.
pub proof fn lemma_map_to_multiset_subset<A, B>(s1: Seq<A>, s2: Seq<A>, f: spec_fn(A) -> B)
    requires
        s1.to_multiset().subset_of(s2.to_multiset()),
    ensures
        s1.map_values(f).to_multiset().subset_of(s2.map_values(f).to_multiset()),
    decreases s1.len(),
{
    if s1.len() == 0 {
        assert(s1.map_values(f) =~= Seq::<B>::empty());
        assert forall|b: B|
            s1.map_values(f).to_multiset().count(b) <= s2.map_values(f).to_multiset().count(
                b,
            ) by {
            assert(s1.map_values(f).to_multiset().len() == 0);
        }
    } else {
        let x = s1[0];
        assert(s1.to_multiset().count(x) > 0) by {
            assert(s1.contains(x));
        }
        assert(s2.to_multiset().count(x) > 0);
        assert(s2.contains(x));
        let j = choose|j: int| 0 <= j < s2.len() && s2[j] == x;
        let s1r = s1.drop_first();
        let s2r = s2.remove(j);
        assert(s1.remove(0) =~= s1r);
        assert(s1.remove(0).to_multiset() == s1.to_multiset().remove(s1[0]));
        assert(s2.remove(j).to_multiset() == s2.to_multiset().remove(s2[j]));
        assert(s1r.to_multiset().subset_of(s2r.to_multiset())) by {
            assert forall|a: A| s1r.to_multiset().count(a) <= s2r.to_multiset().count(a) by {
                assert(s1.to_multiset().count(a) <= s2.to_multiset().count(a));
            }
        }
        lemma_map_to_multiset_subset(s1r, s2r, f);
        let m1 = s1.map_values(f);
        let m2 = s2.map_values(f);
        assert(m1.remove(0) =~= s1r.map_values(f));
        assert(m2.remove(j) =~= s2r.map_values(f));
        assert(m1[0] == f(x));
        assert(m2[j] == f(x));
        assert(m1.remove(0).to_multiset() == m1.to_multiset().remove(m1[0]));
        assert(m2.remove(j).to_multiset() == m2.to_multiset().remove(m2[j]));
        assert(m1.to_multiset().count(f(x)) > 0) by {
            assert(m1.contains(f(x)));
        }
        assert(m2.to_multiset().count(f(x)) > 0) by {
            assert(m2.contains(f(x)));
        }
        assert forall|b: B| m1.to_multiset().count(b) <= m2.to_multiset().count(b) by {
            assert(s1r.map_values(f).to_multiset().count(b) <= s2r.map_values(
                f,
            ).to_multiset().count(b));
        }
    }
}

/// Two distinct positions holding the same value put it in the multiset
/// at least twice.
pub proof fn lemma_two_indices_count<A>(s: Seq<A>, i1: int, i2: int)
    requires
        0 <= i1 < i2 < s.len(),
        s[i1] == s[i2],
    ensures
        s.to_multiset().count(s[i1]) >= 2,
{
    let sr = s.remove(i2);
    assert(s.remove(i2).to_multiset() == s.to_multiset().remove(s[i2]));
    assert(sr[i1] == s[i1]);
    assert(sr.contains(s[i1]));
    assert(sr.to_multiset().count(s[i1]) > 0);
}

/// A value counted at least twice occupies two distinct positions.
pub proof fn lemma_count_two_indices<A>(s: Seq<A>, x: A) -> (r: (int, int))
    requires
        s.to_multiset().count(x) >= 2,
    ensures
        0 <= r.0 < s.len(),
        0 <= r.1 < s.len(),
        r.0 != r.1,
        s[r.0] == x,
        s[r.1] == x,
{
    assert(s.contains(x)) by {
        assert(s.to_multiset().count(x) > 0);
    }
    let i1 = choose|i: int| 0 <= i < s.len() && s[i] == x;
    let sr = s.remove(i1);
    assert(s.remove(i1).to_multiset() == s.to_multiset().remove(s[i1]));
    assert(sr.to_multiset().count(x) >= 1);
    assert(sr.contains(x));
    let j = choose|j: int| 0 <= j < sr.len() && sr[j] == x;
    let i2 = if j < i1 {
        j
    } else {
        j + 1
    };
    assert(s[i2] == sr[j]);
    (i1, i2)
}

/// A permutation of a sequence of sequences has the same flattened
/// multiset.
pub proof fn lemma_flatten_multiset_permutation<A>(gs1: Seq<Seq<A>>, gs2: Seq<Seq<A>>)
    requires
        gs1.to_multiset() == gs2.to_multiset(),
    ensures
        gs1.flatten().to_multiset() == gs2.flatten().to_multiset(),
    decreases gs1.len(),
{
    if gs1.len() == 0 {
        assert(gs2.len() == 0) by {
            assert(gs1.to_multiset().len() == 0);
            assert(gs2.to_multiset().len() == gs2.len());
        }
        assert(gs1.flatten().to_multiset() =~= gs2.flatten().to_multiset());
    } else {
        let g = gs1[0];
        assert(gs1.to_multiset().count(g) > 0) by {
            assert(gs1.contains(g));
        }
        assert(gs2.to_multiset().count(g) > 0);
        assert(gs2.contains(g));
        let j = choose|j: int| 0 <= j < gs2.len() && gs2[j] == g;
        let gs1r = gs1.drop_first();
        let gs2r = gs2.remove(j);
        assert(gs1.remove(0) =~= gs1r);
        assert(gs1.remove(0).to_multiset() == gs1.to_multiset().remove(gs1[0]));
        assert(gs2.remove(j).to_multiset() == gs2.to_multiset().remove(gs2[j]));
        assert(gs1r.to_multiset() =~= gs2r.to_multiset());
        lemma_flatten_multiset_permutation(gs1r, gs2r);
        // flatten splits around the removed element on both sides
        assert(gs1.flatten() == g + gs1r.flatten());
        assert(gs2 =~= gs2.take(j) + seq![g] + gs2.skip(j + 1));
        vstd::seq_lib::lemma_flatten_concat(gs2.take(j) + seq![g], gs2.skip(j + 1));
        vstd::seq_lib::lemma_flatten_concat(gs2.take(j), seq![g]);
        seq![g].lemma_flatten_one_element();
        assert(seq![g].flatten() =~= g);
        assert(gs2.flatten() =~= gs2.take(j).flatten() + g + gs2.skip(j + 1).flatten());
        assert(gs2r =~= gs2.take(j) + gs2.skip(j + 1));
        vstd::seq_lib::lemma_flatten_concat(gs2.take(j), gs2.skip(j + 1));
        assert(gs2r.flatten() =~= gs2.take(j).flatten() + gs2.skip(j + 1).flatten());
        let a = gs2.take(j).flatten();
        let b = gs2.skip(j + 1).flatten();
        vstd::seq_lib::lemma_multiset_commutative(g, gs1r.flatten());
        vstd::seq_lib::lemma_multiset_commutative(a, g + b);
        vstd::seq_lib::lemma_multiset_commutative(g, b);
        vstd::seq_lib::lemma_multiset_commutative(a, b);
        assert(gs1.flatten().to_multiset() =~= gs2.flatten().to_multiset()) by {
            assert(gs1.flatten().to_multiset() =~= g.to_multiset().add(
                gs1r.flatten().to_multiset(),
            ));
            assert(gs2.flatten() =~= a + (g + b));
            assert(gs2.flatten().to_multiset() =~= a.to_multiset().add(
                g.to_multiset().add(b.to_multiset()),
            ));
            assert(gs2r.flatten() =~= a + b);
            assert(gs1r.flatten().to_multiset() =~= a.to_multiset().add(b.to_multiset()));
        }
    }
}

/// Pointwise and pairwise group facts survive a permutation: every group
/// of the reordered sequence is non-empty and internally equivalent, and
/// two groups at distinct positions never lie in the same class.
pub proof fn lemma_groups_permutation_properties(
    gs1: Seq<Seq<EntryView>>,
    gs2: Seq<Seq<EntryView>>,
    cmp_dev: bool,
)
    requires
        gs1.to_multiset() == gs2.to_multiset(),
        forall|g: int| 0 <= g < gs1.len() ==> (#[trigger] gs1[g]).len() >= 1,
        forall|g: int, i: int, j: int|
            0 <= g < gs1.len() && 0 <= i < gs1[g].len() && 0 <= j < gs1[g].len() ==> entry_equiv(
                #[trigger] gs1[g][i],
                #[trigger] gs1[g][j],
                cmp_dev,
            ),
        forall|g1: int, g2: int|
            0 <= g1 < gs1.len() && 0 <= g2 < gs1.len() && g1 != g2 ==> !entry_equiv(
                #[trigger] gs1[g1][0],
                #[trigger] gs1[g2][0],
                cmp_dev,
            ),
    ensures
        forall|g: int| 0 <= g < gs2.len() ==> (#[trigger] gs2[g]).len() >= 1,
        forall|g: int, i: int, j: int|
            0 <= g < gs2.len() && 0 <= i < gs2[g].len() && 0 <= j < gs2[g].len() ==> entry_equiv(
                #[trigger] gs2[g][i],
                #[trigger] gs2[g][j],
                cmp_dev,
            ),
        forall|g1: int, g2: int|
            0 <= g1 < gs2.len() && 0 <= g2 < gs2.len() && g1 != g2 ==> !entry_equiv(
                #[trigger] gs2[g1][0],
                #[trigger] gs2[g2][0],
                cmp_dev,
            ),
{
    assert forall|g: int| 0 <= g < gs2.len() implies (#[trigger] gs2[g]).len() >= 1 by {
        assert(gs2.to_multiset().count(gs2[g]) > 0) by {
            assert(gs2.contains(gs2[g]));
        }
        assert(gs1.contains(gs2[g]));
        let j = choose|j: int| 0 <= j < gs1.len() && gs1[j] == gs2[g];
        assert(gs1[j].len() >= 1);
    }
    assert forall|g: int, i: int, j: int|
        0 <= g < gs2.len() && 0 <= i < gs2[g].len() && 0 <= j < gs2[g].len() implies entry_equiv(
        #[trigger] gs2[g][i],
        #[trigger] gs2[g][j],
        cmp_dev,
    ) by {
        assert(gs2.to_multiset().count(gs2[g]) > 0) by {
            assert(gs2.contains(gs2[g]));
        }
        assert(gs1.contains(gs2[g]));
        let w = choose|w: int| 0 <= w < gs1.len() && gs1[w] == gs2[g];
        assert(entry_equiv(gs1[w][i], gs1[w][j], cmp_dev));
    }
    assert forall|g1: int, g2: int|
        0 <= g1 < gs2.len() && 0 <= g2 < gs2.len() && g1 != g2 implies !entry_equiv(
        #[trigger] gs2[g1][0],
        #[trigger] gs2[g2][0],
        cmp_dev,
    ) by {
        let v1 = gs2[g1];
        let v2 = gs2[g2];
        if v1 == v2 {
            let lo = if g1 < g2 {
                g1
            } else {
                g2
            };
            let hi = if g1 < g2 {
                g2
            } else {
                g1
            };
            lemma_two_indices_count(gs2, lo, hi);
            let pair = lemma_count_two_indices(gs1, v1);
            assert(!entry_equiv(gs1[pair.0][0], gs1[pair.1][0], cmp_dev));
            assert(gs1[pair.0] == v1 && gs1[pair.1] == v1);
        } else {
            assert(gs2.to_multiset().count(v1) > 0) by {
                assert(gs2.contains(v1));
            }
            assert(gs2.to_multiset().count(v2) > 0) by {
                assert(gs2.contains(v2));
            }
            assert(gs1.contains(v1));
            assert(gs1.contains(v2));
            let j1 = choose|j: int| 0 <= j < gs1.len() && gs1[j] == v1;
            let j2 = choose|j: int| 0 <= j < gs1.len() && gs1[j] == v2;
            assert(j1 != j2);
            assert(!entry_equiv(gs1[j1][0], gs1[j2][0], cmp_dev));
        }
    }
}

/// The images of a sequence of groups.
pub open spec fn group_views(gs: Seq<Vec<FSEntry>>) -> Seq<Seq<EntryView>> {
    gs.map_values(|g: Vec<FSEntry>| entry_views(g@))
}

/// Partitions entries into maximal runs of comparator-equivalent records.
/// The groups cover the input exactly, each group is one equivalence
/// class, and distinct groups lie in strictly increasing classes.
pub fn group_by_heuristic(entries: Vec<FSEntry>, cmp_dev: bool) -> (groups: Vec<Vec<FSEntry>>)
    ensures
        group_views(groups@).flatten().to_multiset() == entry_views(entries@).to_multiset(),
        entries_sorted(group_views(groups@).flatten(), cmp_dev),
        forall|g: int| 0 <= g < groups@.len() ==> #[trigger] group_views(groups@)[g].len() >= 1,
        forall|g: int, i: int, j: int|
            0 <= g < groups@.len() && 0 <= i < group_views(groups@)[g].len() && 0 <= j
                < group_views(groups@)[g].len() ==> entry_equiv(
                #[trigger] group_views(groups@)[g][i],
                #[trigger] group_views(groups@)[g][j],
                cmp_dev,
            ),
        forall|g1: int, g2: int|
            0 <= g1 < g2 < groups@.len() ==> entry_lt(
                #[trigger] group_views(groups@)[g1][0],
                #[trigger] group_views(groups@)[g2][0],
                cmp_dev,
            ),
        entries@.len() == 0 ==> groups@.len() == 0,
{
    proof {
        lemma_entry_order(cmp_dev);
    }
    let ghost m0 = entry_views(entries@).to_multiset();
    let mut v = sort_entries(entries, cmp_dev);
    let ghost s = entry_views(v@);
    let n = v.len();
    let mut groups: Vec<Vec<FSEntry>> = Vec::new();
    let mut cur: Vec<FSEntry> = Vec::new();
    let mut k: usize = 0;
    proof {
        assert(entry_views(v@) =~= s.skip(0));
        assert(group_views(groups@).flatten() + entry_views(cur@) =~= s.take(0));
    }
    while k < n
        invariant
            k <= n,
            n == s.len(),
            entries_sorted(s, cmp_dev),
            s.to_multiset() == m0,
            k + v@.len() == n,
            entry_views(v@) =~= s.skip(k as int),
            group_views(groups@).flatten() + entry_views(cur@) =~= s.take(k as int),
            k == 0 ==> groups@.len() == 0 && cur@.len() == 0,
            k > 0 ==> entry_views(cur@).len() >= 1 && entry_views(cur@).last() == s[k - 1],
            forall|g: int|
                0 <= g < groups@.len() ==> #[trigger] group_views(groups@)[g].len() >= 1,
            forall|g: int, i: int, j: int|
                0 <= g < groups@.len() && 0 <= i < group_views(groups@)[g].len() && 0 <= j
                    < group_views(groups@)[g].len() ==> entry_equiv(
                    #[trigger] group_views(groups@)[g][i],
                    #[trigger] group_views(groups@)[g][j],
                    cmp_dev,
                ),
            forall|i: int, j: int|
                0 <= i < entry_views(cur@).len() && 0 <= j < entry_views(cur@).len()
                    ==> entry_equiv(
                    #[trigger] entry_views(cur@)[i],
                    #[trigger] entry_views(cur@)[j],
                    cmp_dev,
                ),
            forall|g1: int, g2: int|
                0 <= g1 < g2 < groups@.len() ==> entry_lt(
                    #[trigger] group_views(groups@)[g1][0],
                    #[trigger] group_views(groups@)[g2][0],
                    cmp_dev,
                ),
            forall|g: int|
                0 <= g < groups@.len() && cur@.len() > 0 ==> entry_lt(
                    #[trigger] group_views(groups@)[g][0],
                    entry_views(cur@)[0],
                    cmp_dev,
                ),
        decreases n - k,
    {
        let ghost v_prev = v@;
        let ghost cur_prev = entry_views(cur@);
        let ghost groups_prev = group_views(groups@);
        let e = v.remove(0);
        proof {
            lemma_entry_order(cmp_dev);
            assert(entry_views(v_prev)[0] == e@);
            assert(e@ == s[k as int]);
            assert(entry_views(v@) =~= entry_views(v_prev).remove(0));
            assert(entry_views(v@) =~= s.skip(k + 1));
            s.lemma_take_succ_push(k as int);
        }
        if cur.len() == 0 {
            cur.push(e);
            proof {
                assert(entry_views(cur@) =~= cur_prev.push(s[k as int]));
                assert(group_views(groups@).flatten() + entry_views(cur@) =~= s.take(k + 1));
            }
        } else {
            let last_idx = cur.len() - 1;
            let c = compare_entries(&cur[last_idx], &e, cmp_dev);
            proof {
                assert(entry_views(cur@)[last_idx as int] == cur@[last_idx as int]@);
            }
            if matches!(c, core::cmp::Ordering::Equal) {
                cur.push(e);
                proof {
                    assert(entry_views(cur@) =~= cur_prev.push(s[k as int]));
                    assert(group_views(groups@).flatten() + entry_views(cur@) =~= s.take(k + 1));
                    assert forall|i: int, j: int|
                        0 <= i < entry_views(cur@).len() && 0 <= j < entry_views(
                            cur@,
                        ).len() implies entry_equiv(
                        #[trigger] entry_views(cur@)[i],
                        #[trigger] entry_views(cur@)[j],
                        cmp_dev,
                    ) by {
                        let cl = cur_prev.len() as int;
                        assert(entry_equiv(cur_prev[cl - 1], s[k as int], cmp_dev));
                    }
                }
            } else {
                proof {
                    // the run ends here: the next entry lies strictly above
                    assert(!entry_lt(s[k as int], s[k - 1], cmp_dev));
                    assert(!entry_equiv(cur_prev.last(), s[k as int], cmp_dev));
                    assert(entry_lt(s[k - 1], s[k as int], cmp_dev));
                }
                groups.push(cur);
                cur = Vec::new();
                cur.push(e);
                proof {
                    assert(group_views(groups@) =~= groups_prev.push(cur_prev));
                    groups_prev.lemma_flatten_push(cur_prev);
                    assert(entry_views(cur@) =~= Seq::<EntryView>::empty().push(s[k as int]));
                    assert(group_views(groups@).flatten() + entry_views(cur@) =~= s.take(k + 1));
                    assert forall|g: int|
                        0 <= g < groups@.len() implies entry_lt(
                        #[trigger] group_views(groups@)[g][0],
                        entry_views(cur@)[0],
                        cmp_dev,
                    ) by {
                        assert(entry_equiv(cur_prev[0], s[k - 1], cmp_dev));
                        assert(entry_lt(cur_prev[0], s[k as int], cmp_dev));
                        if g < groups@.len() - 1 {
                            assert(entry_lt(groups_prev[g][0], cur_prev[0], cmp_dev));
                        }
                    }
                }
            }
        }
        k += 1;
    }
    proof {
        assert(s.take(n as int) =~= s);
    }
    if cur.len() > 0 {
        let ghost cur_prev = entry_views(cur@);
        let ghost groups_prev = group_views(groups@);
        groups.push(cur);
        proof {
            assert(group_views(groups@) =~= groups_prev.push(cur_prev));
            groups_prev.lemma_flatten_push(cur_prev);
            assert(group_views(groups@).flatten() =~= s);
            assert forall|g1: int, g2: int|
                0 <= g1 < g2 < groups@.len() implies entry_lt(
                #[trigger] group_views(groups@)[g1][0],
                #[trigger] group_views(groups@)[g2][0],
                cmp_dev,
            ) by {
                if g2 == groups@.len() - 1 {
                    assert(group_views(groups@)[g1] == groups_prev[g1]);
                    assert(group_views(groups@)[g2] == cur_prev);
                    assert(entry_lt(groups_prev[g1][0], cur_prev[0], cmp_dev));
                }
            }
        }
    } else {
        proof {
            assert(entry_views(cur@) =~= Seq::<EntryView>::empty());
            assert(group_views(groups@).flatten() + entry_views(cur@) =~= group_views(
                groups@,
            ).flatten());
            assert(group_views(groups@).flatten() =~= s);
        }
    }
    groups
}

} // verus!
