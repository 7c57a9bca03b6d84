//! File collection: filter evaluation and inode coalescing.  The walk
//! itself — reading directories and stat'ing entries — is the shell's
//! work; every decision about what is kept, and the map that unifies
//! hardlinked aliases under one inode, lives here.

use vstd::prelude::*;

use std::collections::HashMap;

use crate::errors::DedupError;
use crate::fs_entry::{entry_views, entry_wf, EntryView, FSEntry, HeuristicView};
use crate::globs::{
    build_glob_set, glob_match, glob_pats_wf, glob_set_is_match, glob_set_pats, promote_patterns,
    spec_promote_all,
};

verus! {

broadcast use vstd::std_specs::hash::group_hash_axioms;

/// The per-root settings of one collection pass: failure mode, device
/// bound, compiled filters, size bounds, and the root's priority.
pub struct SearchState {
    pub abort_on_error: bool,
    pub one_fs: bool,
    pub dev: Option<u64>,
    pub includes: Option<globset::GlobSet>,
    pub excludes: Option<globset::GlobSet>,
    pub min_size: Option<u64>,
    pub max_size: Option<u64>,
    pub priority: u32,
}

/// The filter decision: an include match passes outright; otherwise an
/// exclude match rejects; otherwise a file must lie within the size
/// bounds, the minimum inclusive and the maximum exclusive.
pub open spec fn spec_passes_filters(
    st: SearchState,
    path: Seq<char>,
    is_file: bool,
    size: u64,
) -> bool {
    if match st.includes {
        Some(gs) => glob_match(glob_set_pats(gs), path),
        None => false,
    } {
        true
    } else if match st.excludes {
        Some(gs) => glob_match(glob_set_pats(gs), path),
        None => false,
    } {
        false
    } else if is_file {
        &&& match st.min_size {
            Some(mn) => size >= mn,
            None => true,
        }
        &&& match st.max_size {
            Some(mx) => size < mx,
            None => true,
        }
    } else {
        true
    }
}

/// The decision on one directory entry: symlinks never pass, a device
/// bound rejects foreign devices, and the filters decide the rest.
pub open spec fn spec_check_dir_entry(
    st: SearchState,
    path: Seq<char>,
    is_symlink: bool,
    dev: u64,
    is_file: bool,
    size: u64,
) -> bool {
    &&& !is_symlink
    &&& match st.dev {
        Some(d) => dev == d,
        None => true,
    }
    &&& spec_passes_filters(st, path, is_file, size)
}

impl SearchState {
    /// Builds the state for one root.  `root_dev` is the device of the
    /// root itself, honoured only under the one-filesystem bound.  Fails
    /// exactly when a non-empty pattern list does not compile.
    pub fn new(
        root_dev: Option<u64>,
        abort_on_error: bool,
        one_fs: bool,
        inc_patterns: &Vec<String>,
        ex_patterns: &Vec<String>,
        min_size: Option<u64>,
        max_size: Option<u64>,
        priority: u32,
    ) -> (r: Result<SearchState, DedupError>)
        ensures
            r matches Ok(_) <==> (inc_patterns@.len() == 0 || glob_pats_wf(
                spec_promote_all(inc_patterns.deep_view()),
            )) && (ex_patterns@.len() == 0 || glob_pats_wf(
                spec_promote_all(ex_patterns.deep_view()),
            )),
            match r {
                Ok(st) => {
                    &&& st.abort_on_error == abort_on_error
                    &&& st.one_fs == one_fs
                    &&& st.dev == (if one_fs {
                        root_dev
                    } else {
                        None::<u64>
                    })
                    &&& st.min_size == min_size
                    &&& st.max_size == max_size
                    &&& st.priority == priority
                    &&& match st.includes {
                        Some(gs) => inc_patterns@.len() > 0 && glob_set_pats(gs)
                            == spec_promote_all(inc_patterns.deep_view()),
                        None => inc_patterns@.len() == 0,
                    }
                    &&& match st.excludes {
                        Some(gs) => ex_patterns@.len() > 0 && glob_set_pats(gs)
                            == spec_promote_all(ex_patterns.deep_view()),
                        None => ex_patterns@.len() == 0,
                    }
                },
                Err(e) => e matches DedupError::FilterCompile(_),
            },
    {
        let includes = if inc_patterns.len() == 0 {
            None
        } else {
            let promoted = promote_patterns(inc_patterns);
            match build_glob_set(&promoted) {
                Ok(gs) => Some(gs),
                Err(m) => {
                    return Err(DedupError::FilterCompile(m));
                },
            }
        };
        let excludes = if ex_patterns.len() == 0 {
            None
        } else {
            let promoted = promote_patterns(ex_patterns);
            match build_glob_set(&promoted) {
                Ok(gs) => Some(gs),
                Err(m) => {
                    return Err(DedupError::FilterCompile(m));
                },
            }
        };
        let dev = if one_fs {
            root_dev
        } else {
            None
        };
        Ok(
            SearchState {
                abort_on_error,
                one_fs,
                dev,
                includes,
                excludes,
                min_size,
                max_size,
                priority,
            },
        )
    }

    /// Evaluates the filters against one candidate path.
    pub fn passes_filters(&self, path: &String, is_file: bool, size: u64) -> (r: bool)
        ensures
            r == spec_passes_filters(*self, path@, is_file, size),
    {
        if let Some(inc) = &self.includes {
            if glob_set_is_match(inc, path) {
                return true;
            }
        }
        if let Some(ex) = &self.excludes {
            if glob_set_is_match(ex, path) {
                return false;
            }
        }
        if is_file {
            if let Some(mn) = self.min_size {
                if size < mn {
                    return false;
                }
            }
            if let Some(mx) = self.max_size {
                if size >= mx {
                    return false;
                }
            }
        }
        true
    }
}

/// Decides whether one directory entry takes part in the walk at all.
pub fn check_dir_entry(
    state: &SearchState,
    path: &String,
    is_symlink: bool,
    dev: u64,
    is_file: bool,
    size: u64,
) -> (r: bool)
    ensures
        r == spec_check_dir_entry(*state, path@, is_symlink, dev, is_file, size),
{
    if is_symlink {
        return false;
    }
    if let Some(d) = state.dev {
        if dev != d {
            return false;
        }
    }
    state.passes_filters(path, is_file, size)
}

/// One regular file as the walk observed it: its path and the stat
/// results the collector reads.
pub struct FileObs {
    pub path: String,
    pub dev: u64,
    pub inode: u64,
    pub size: u64,
    pub is_symlink: bool,
}

/// Mathematical image of a `FileObs`.
pub ghost struct ObsView {
    pub path: Seq<char>,
    pub dev: u64,
    pub inode: u64,
    pub size: u64,
    pub is_symlink: bool,
}

impl View for FileObs {
    type V = ObsView;

    open spec fn view(&self) -> ObsView {
        ObsView {
            path: self.path@,
            dev: self.dev,
            inode: self.inode,
            size: self.size,
            is_symlink: self.is_symlink,
        }
    }
}

/// The images of a sequence of observations.
pub open spec fn obs_views(s: Seq<FileObs>) -> Seq<ObsView> {
    s.map_values(|o: FileObs| o@)
}

/// The key that identifies an inode across the run.
pub open spec fn spec_loc_key(dev: u64, inode: u64) -> u128 {
    (dev * 0x10000000000000000 + inode) as u128
}

proof fn lemma_loc_key_injective(d1: u64, i1: u64, d2: u64, i2: u64)
    requires
        spec_loc_key(d1, i1) == spec_loc_key(d2, i2),
    ensures
        d1 == d2,
        i1 == i2,
{
    assert(d1 * 0x10000000000000000 + i1 == d2 * 0x10000000000000000 + i2) by (nonlinear_arith)
        requires
            spec_loc_key(d1, i1) == spec_loc_key(d2, i2),
            d1 <= 0xffffffffffffffffu64,
            d2 <= 0xffffffffffffffffu64,
            i1 <= 0xffffffffffffffffu64,
            i2 <= 0xffffffffffffffffu64,
    ;
    assert(d1 == d2 && i1 == i2) by (nonlinear_arith)
        requires
            d1 * 0x10000000000000000 + i1 == d2 * 0x10000000000000000 + i2,
            i1 < 0x10000000000000000,
            i2 < 0x10000000000000000,
    ;
}

fn loc_key(dev: u64, inode: u64) -> (r: u128)
    ensures
        r == spec_loc_key(dev, inode),
{
    (dev as u128) * 0x10000000000000000u128 + (inode as u128)
}

/// No two entries share a device and inode pair.
pub open spec fn loc_distinct(s: Seq<EntryView>) -> bool {
    forall|i: int, j: int|
        #![trigger s[i].inode, s[j].inode]
        0 <= i < j < s.len() ==> !(s[i].dev == s[j].dev && s[i].inode == s[j].inode)
}

/// The index of the entry owning `(dev, inode)`, or a negative value
/// when no entry does.
pub open spec fn find_loc(s: Seq<EntryView>, dev: u64, inode: u64) -> int
    decreases s.len(),
{
    if s.len() == 0 {
        -1
    } else if s[0].dev == dev && s[0].inode == inode {
        0
    } else {
        let r = find_loc(s.drop_first(), dev, inode);
        if r < 0 {
            -1
        } else {
            r + 1
        }
    }
}

proof fn lemma_find_loc_present(s: Seq<EntryView>, dev: u64, inode: u64, idx: int)
    requires
        loc_distinct(s),
        0 <= idx < s.len(),
        s[idx].dev == dev,
        s[idx].inode == inode,
    ensures
        find_loc(s, dev, inode) == idx,
    decreases s.len(),
{
    if s[0].dev == dev && s[0].inode == inode {
        assert(idx == 0);
    } else {
        assert(idx >= 1);
        let s2 = s.drop_first();
        assert forall|i: int, j: int|
            #![trigger s2[i].inode, s2[j].inode]
            0 <= i < j < s2.len() implies !(s2[i].dev == s2[j].dev && s2[i].inode
            == s2[j].inode) by {
            assert(s2[i] == s[i + 1]);
            assert(s2[j] == s[j + 1]);
        }
        assert(s2[idx - 1] == s[idx]);
        lemma_find_loc_present(s2, dev, inode, idx - 1);
    }
}

proof fn lemma_find_loc_absent(s: Seq<EntryView>, dev: u64, inode: u64)
    requires
        forall|i: int| 0 <= i < s.len() ==> !(#[trigger] s[i].dev == dev && s[i].inode == inode),
    ensures
        find_loc(s, dev, inode) == -1,
    decreases s.len(),
{
    if s.len() > 0 {
        let s2 = s.drop_first();
        assert forall|i: int| 0 <= i < s2.len() implies !(#[trigger] s2[i].dev == dev && s2[i].inode
            == inode) by {
            assert(s2[i] == s[i + 1]);
        }
        lemma_find_loc_absent(s2, dev, inode);
    }
}

/// A freshly observed inode's entry.
pub open spec fn spec_new_entry(
    path: Seq<char>,
    dev: u64,
    inode: u64,
    size: u64,
    priority: u32,
) -> EntryView {
    EntryView { dev, inode, size, priority, paths: seq![path], hvalue: HeuristicView::Null }
}

/// An alias recorded on an existing entry, unless already present.
pub open spec fn spec_add_path(e: EntryView, path: Seq<char>) -> EntryView {
    if e.paths.contains(path) {
        e
    } else {
        EntryView { paths: e.paths.push(path), ..e }
    }
}

/// One observation folded into the collection: a new entry for a new
/// inode, an extra alias for a known one.
pub open spec fn spec_ingest(
    s: Seq<EntryView>,
    path: Seq<char>,
    dev: u64,
    inode: u64,
    size: u64,
    priority: u32,
) -> Seq<EntryView> {
    let i = find_loc(s, dev, inode);
    if i < 0 {
        s.push(spec_new_entry(path, dev, inode, size, priority))
    } else {
        s.update(i, spec_add_path(s[i], path))
    }
}

/// The inode-keyed collection of entries.  The order of entries is the
/// order in which their inodes were first observed.
pub struct EntryMap {
    entries: Vec<FSEntry>,
    index: HashMap<u128, usize>,
}

impl View for EntryMap {
    type V = Seq<EntryView>;

    closed spec fn view(&self) -> Seq<EntryView> {
        entry_views(self.entries@)
    }
}

impl EntryMap {
    /// The map is sound: the index covers exactly the recorded inodes.
    pub closed spec fn wf(&self) -> bool {
        &&& forall|i: int|
            0 <= i < self.entries@.len() ==> {
                let k = spec_loc_key(
                    (#[trigger] self.entries@[i])@.dev,
                    self.entries@[i]@.inode,
                );
                self.index@.contains_key(k) && self.index@[k] == i
            }
        &&& forall|k: u128|
            #[trigger] self.index@.contains_key(k) ==> 0 <= self.index@[k]
                < self.entries@.len() && spec_loc_key(
                self.entries@[self.index@[k] as int]@.dev,
                self.entries@[self.index@[k] as int]@.inode,
            ) == k
        &&& forall|i: int| 0 <= i < self.entries@.len() ==> entry_wf(#[trigger] self.entries@[i]@)
    }

    /// Law (inode uniqueness): the collection holds at most one entry per
    /// device and inode pair.
    pub proof fn lemma_loc_distinct(&self)
        requires
            self.wf(),
        ensures
            loc_distinct(self@),
    {
        assert forall|i: int, j: int|
            #![trigger self@[i].inode, self@[j].inode]
            0 <= i < j < self@.len() implies !(self@[i].dev == self@[j].dev && self@[i].inode
            == self@[j].inode) by {
            assert(self@[i] == self.entries@[i]@);
            assert(self@[j] == self.entries@[j]@);
            if self@[i].dev == self@[j].dev && self@[i].inode == self@[j].inode {
                let k = spec_loc_key(self@[i].dev, self@[i].inode);
                assert(self.index@[k] == i);
                assert(self.index@[k] == j);
            }
        }
    }

    /// An empty collection.
    pub fn new() -> (r: EntryMap)
        ensures
            r.wf(),
            r@ == Seq::<EntryView>::empty(),
    {
        let r = EntryMap { entries: Vec::new(), index: HashMap::new() };
        proof {
            assert(r@ =~= Seq::<EntryView>::empty());
        }
        r
    }

    /// All well-formedness facts a caller may rely on.
    pub proof fn lemma_entries_wf(&self)
        requires
            self.wf(),
        ensures
            forall|i: int| 0 <= i < self@.len() ==> entry_wf(#[trigger] self@[i]),
    {
        assert forall|i: int| 0 <= i < self@.len() implies entry_wf(#[trigger] self@[i]) by {
            assert(self@[i] == self.entries@[i]@);
        }
    }

    /// Folds one accepted file into the collection: a fresh inode gains a
    /// new entry carrying this path; a known inode gains the path as an
    /// alias unless it already records it.  An alias never changes the
    /// entry's size or priority.
    pub fn add_path_to_entry(
        &mut self,
        path: String,
        dev: u64,
        inode: u64,
        size: u64,
        priority: u32,
    )
        requires
            old(self).wf(),
        ensures
            final(self).wf(),
            final(self)@ == spec_ingest(old(self)@, path@, dev, inode, size, priority),
    {
        proof {
            self.lemma_loc_distinct();
        }
        let key = loc_key(dev, inode);
        let existing = match self.index.get(&key) {
            Some(i) => Some(*i),
            None => None,
        };
        match existing {
            Some(i) => {
                proof {
                    assert(self.index@.contains_key(key));
                    assert(self.index@[key] == i);
                    let e = self.entries@[i as int]@;
                    lemma_loc_key_injective(e.dev, e.inode, dev, inode);
                    lemma_find_loc_present(self@, dev, inode, i as int);
                }
                let ghost prev = self.entries@;
                self.entries[i].add_path(path);
                proof {
                    assert(self@ =~= entry_views(prev).update(
                        i as int,
                        spec_add_path(entry_views(prev)[i as int], path@),
                    ));
                    assert forall|j: int| 0 <= j < self.entries@.len() implies {
                        let k = spec_loc_key(
                            (#[trigger] self.entries@[j])@.dev,
                            self.entries@[j]@.inode,
                        );
                        self.index@.contains_key(k) && self.index@[k] == j
                    } by {
                        if j != i {
                            assert(self.entries@[j] == prev[j]);
                        }
                    }
                }
            },
            None => {
                proof {
                    assert(!self.index@.contains_key(key));
                    assert forall|j: int| 0 <= j < self@.len() implies !(#[trigger] self@[j].dev
                        == dev && self@[j].inode == inode) by {
                        if self@[j].dev == dev && self@[j].inode == inode {
                            assert(self@[j] == self.entries@[j]@);
                            assert(self.index@.contains_key(
                                spec_loc_key(self@[j].dev, self@[j].inode),
                            ));
                        }
                    }
                    lemma_find_loc_absent(self@, dev, inode);
                }
                let ghost prev = self.entries@;
                let n = self.entries.len();
                let entry = FSEntry::new(dev, inode, size, priority, path);
                self.entries.push(entry);
                self.index.insert(key, n);
                proof {
                    assert(self@ =~= entry_views(prev).push(
                        spec_new_entry(path@, dev, inode, size, priority),
                    ));
                    assert forall|j: int| 0 <= j < self.entries@.len() implies {
                        let k = spec_loc_key(
                            (#[trigger] self.entries@[j])@.dev,
                            self.entries@[j]@.inode,
                        );
                        self.index@.contains_key(k) && self.index@[k] == j
                    } by {
                        if j < n {
                            assert(self.entries@[j] == prev[j]);
                            let k = spec_loc_key(prev[j]@.dev, prev[j]@.inode);
                            if k == key {
                                lemma_loc_key_injective(prev[j]@.dev, prev[j]@.inode, dev, inode);
                            }
                        }
                    }
                    assert forall|k: u128| #[trigger]
                        self.index@.contains_key(k) implies 0 <= self.index@[k]
                        < self.entries@.len() && spec_loc_key(
                        self.entries@[self.index@[k] as int]@.dev,
                        self.entries@[self.index@[k] as int]@.inode,
                    ) == k by {
                        if k != key {
                            assert(self.index@[k] == old(self).index@[k]);
                            assert(self.entries@[self.index@[k] as int] == prev[self.index@[
                                k
                            ] as int]);
                        }
                    }
                }
            },
        }
    }

    /// Hands the collected entries out, in first-observation order.
    pub fn into_entries(self) -> (r: Vec<FSEntry>)
        requires
            self.wf(),
        ensures
            entry_views(r@) == self@,
            loc_distinct(entry_views(r@)),
            forall|i: int| 0 <= i < entry_views(r@).len() ==> entry_wf(#[trigger] entry_views(r@)[i]),
    {
        proof {
            self.lemma_loc_distinct();
            self.lemma_entries_wf();
        }
        let EntryMap { entries, index } = self;
        entries
    }
}

/// A batch of observations folded into the collection in order, each one
/// first put to the entry check.
pub open spec fn spec_collect(
    s: Seq<EntryView>,
    obs: Seq<ObsView>,
    st: SearchState,
    priority: u32,
) -> Seq<EntryView>
    decreases obs.len(),
{
    if obs.len() == 0 {
        s
    } else {
        let o = obs[0];
        let s2 = if spec_check_dir_entry(st, o.path, o.is_symlink, o.dev, true, o.size) {
            spec_ingest(s, o.path, o.dev, o.inode, o.size, priority)
        } else {
            s
        };
        spec_collect(s2, obs.drop_first(), st, priority)
    }
}

/// Folds the observed regular files of one root into the map: each one
/// is put to the entry check — symlink, device bound, filters — and the
/// accepted ones are coalesced by inode, with this root's priority on
/// every entry they create.
pub fn collect_files(observed: Vec<FileObs>, files_map: &mut EntryMap, state: &SearchState)
    requires
        old(files_map).wf(),
    ensures
        final(files_map).wf(),
        final(files_map)@ == spec_collect(old(files_map)@, obs_views(observed@), *state, state.priority),
{
    let mut rest = observed;
    while rest.len() > 0
        invariant
            files_map.wf(),
            spec_collect(files_map@, obs_views(rest@), *state, state.priority) == spec_collect(
                old(files_map)@,
                obs_views(observed@),
                *state,
                state.priority,
            ),
        decreases rest@.len(),
    {
        let ghost rest_prev = rest@;
        let o = rest.remove(0);
        proof {
            assert(obs_views(rest_prev)[0] == o@);
            assert(obs_views(rest@) =~= obs_views(rest_prev).drop_first());
        }
        if check_dir_entry(state, &o.path, o.is_symlink, o.dev, true, o.size) {
            files_map.add_path_to_entry(o.path, o.dev, o.inode, o.size, state.priority);
        }
    }
    proof {
        assert(obs_views(rest@).len() == 0);
    }
}

proof fn lemma_find_loc_found(s: Seq<EntryView>, dev: u64, inode: u64)
    ensures
        find_loc(s, dev, inode) < 0 || (0 <= find_loc(s, dev, inode) < s.len() && s[find_loc(
            s,
            dev,
            inode,
        )].dev == dev && s[find_loc(s, dev, inode)].inode == inode),
    decreases s.len(),
{
    if s.len() > 0 && !(s[0].dev == dev && s[0].inode == inode) {
        lemma_find_loc_found(s.drop_first(), dev, inode);
    }
}

/// A path of the collected map is accounted for: it was observed on this
/// very device and inode, or the map already held it.
pub open spec fn path_traceable(
    s0: Seq<EntryView>,
    obs: Seq<ObsView>,
    dev: u64,
    inode: u64,
    p: Seq<char>,
) -> bool {
    ||| exists|j: int|
        0 <= j < obs.len() && (#[trigger] obs[j]).path == p && obs[j].dev == dev && obs[j].inode
            == inode
    ||| exists|j: int|
        0 <= j < s0.len() && (#[trigger] s0[j]).dev == dev && s0[j].inode == inode
            && s0[j].paths.contains(p)
}

/// Law (path faithfulness): after a collection pass, every path an entry
/// records was either observed with exactly that entry's device and
/// inode — as the stat of the path reported them — or already stood in
/// the map the pass started from.
pub proof fn lemma_collect_paths_faithful(
    s: Seq<EntryView>,
    obs: Seq<ObsView>,
    st: SearchState,
    priority: u32,
)
    ensures
        forall|i: int, pi: int|
            #![trigger spec_collect(s, obs, st, priority)[i].paths[pi]]
            0 <= i < spec_collect(s, obs, st, priority).len() && 0 <= pi < spec_collect(
                s,
                obs,
                st,
                priority,
            )[i].paths.len() ==> path_traceable(
                s,
                obs,
                spec_collect(s, obs, st, priority)[i].dev,
                spec_collect(s, obs, st, priority)[i].inode,
                spec_collect(s, obs, st, priority)[i].paths[pi],
            ),
    decreases obs.len(),
{
    let r = spec_collect(s, obs, st, priority);
    if obs.len() == 0 {
        assert forall|i: int, pi: int|
            #![trigger r[i].paths[pi]]
            0 <= i < r.len() && 0 <= pi < r[i].paths.len() implies path_traceable(
            s,
            obs,
            r[i].dev,
            r[i].inode,
            r[i].paths[pi],
        ) by {
            assert(s[i].paths.contains(s[i].paths[pi]));
        }
    } else {
        let o = obs[0];
        let accepted = spec_check_dir_entry(st, o.path, o.is_symlink, o.dev, true, o.size);
        let s2 = if accepted {
            spec_ingest(s, o.path, o.dev, o.inode, o.size, priority)
        } else {
            s
        };
        let rest = obs.drop_first();
        lemma_collect_paths_faithful(s2, rest, st, priority);
        assert(r == spec_collect(s2, rest, st, priority));
        lemma_find_loc_found(s, o.dev, o.inode);
        assert forall|i: int, pi: int|
            #![trigger r[i].paths[pi]]
            0 <= i < r.len() && 0 <= pi < r[i].paths.len() implies path_traceable(
            s,
            obs,
            r[i].dev,
            r[i].inode,
            r[i].paths[pi],
        ) by {
            let dev = r[i].dev;
            let inode = r[i].inode;
            let p = r[i].paths[pi];
            assert(path_traceable(s2, rest, dev, inode, p));
            if exists|j: int|
                0 <= j < rest.len() && (#[trigger] rest[j]).path == p && rest[j].dev == dev
                    && rest[j].inode == inode {
                let j = choose|j: int|
                    0 <= j < rest.len() && (#[trigger] rest[j]).path == p && rest[j].dev == dev
                        && rest[j].inode == inode;
                assert(obs[j + 1] == rest[j]);
            } else {
                let j = choose|j: int|
                    0 <= j < s2.len() && (#[trigger] s2[j]).dev == dev && s2[j].inode == inode
                        && s2[j].paths.contains(p);
                if !accepted {
                    assert(s[j].paths.contains(p));
                } else {
                    let fl = find_loc(s, o.dev, o.inode);
                    if fl < 0 {
                        if j < s.len() {
                            assert(s2[j] == s[j]);
                            assert(s[j].paths.contains(p));
                        } else {
                            // the freshly pushed entry: its one path is the
                            // observation's own
                            assert(s2[j] == spec_new_entry(o.path, o.dev, o.inode, o.size, priority));
                            assert(s2[j].paths == seq![o.path]);
                            assert(p == o.path);
                            assert(obs[0].path == p && obs[0].dev == dev && obs[0].inode == inode);
                        }
                    } else {
                        if j != fl {
                            assert(s2[j] == s[j]);
                            assert(s[j].paths.contains(p));
                        } else {
                            let e = s[fl];
                            assert(s2[fl] == spec_add_path(e, o.path));
                            assert(e.dev == dev && e.inode == inode);
                            if e.paths.contains(o.path) {
                                assert(s2[fl] == e);
                                assert(e.paths.contains(p));
                            } else {
                                assert(s2[fl].paths == e.paths.push(o.path));
                                let k = choose|k: int|
                                    0 <= k < s2[fl].paths.len() && s2[fl].paths[k] == p;
                                if k < e.paths.len() {
                                    assert(e.paths[k] == p);
                                    assert(e.paths.contains(p));
                                } else {
                                    assert(p == o.path);
                                    assert(obs[0].path == p && obs[0].dev == dev && obs[0].inode
                                        == inode);
                                }
                            }
                        }
                    }
                }
            }
        }
    }
}

} // verus!
