//! The entry model: one record per inode, carrying every path that
//! resolves to it and the heuristic value of the current pipeline stage.

use vstd::prelude::*;

verus! {

pub type INode = u64;

pub type Dev = u64;

pub type Priority = u32;

/// The per-stage refinement value attached to an entry.  Variants are
/// ordered by tag, then by payload; byte payloads compare lexicographically.
#[derive(Clone, Debug)]
pub enum Heuristic {
    Null,
    Device(u64),
    Size(u64),
    Bytes(Vec<u8>),
    Hash(Vec<u8>),
}

/// Mathematical image of a `Heuristic`.
pub ghost enum HeuristicView {
    Null,
    Device(u64),
    Size(u64),
    Bytes(Seq<u8>),
    Hash(Seq<u8>),
}

impl View for Heuristic {
    type V = HeuristicView;

    open spec fn view(&self) -> HeuristicView {
        match self {
            Heuristic::Null => HeuristicView::Null,
            Heuristic::Device(d) => HeuristicView::Device(*d),
            Heuristic::Size(s) => HeuristicView::Size(*s),
            Heuristic::Bytes(b) => HeuristicView::Bytes(b@),
            Heuristic::Hash(b) => HeuristicView::Hash(b@),
        }
    }
}

/// One filesystem entry: an inode on a device, its size, the priority of
/// the root it was first seen under, and every path known to reach it.
#[derive(Debug)]
pub struct FSEntry {
    pub dev: Dev,
    pub inode: INode,
    pub size: u64,
    pub priority: Priority,
    pub paths: Vec<String>,
    pub hvalue: Heuristic,
}

/// Mathematical image of an `FSEntry`.
#[verifier::ext_equal]
pub ghost struct EntryView {
    pub dev: u64,
    pub inode: u64,
    pub size: u64,
    pub priority: u32,
    pub paths: Seq<Seq<char>>,
    pub hvalue: HeuristicView,
}

impl View for FSEntry {
    type V = EntryView;

    open spec fn view(&self) -> EntryView {
        EntryView {
            dev: self.dev,
            inode: self.inode,
            size: self.size,
            priority: self.priority,
            paths: self.paths.deep_view(),
            hvalue: self.hvalue@,
        }
    }
}

/// The images of a sequence of entries.
pub open spec fn entry_views(s: Seq<FSEntry>) -> Seq<EntryView> {
    s.map_values(|e: FSEntry| e@)
}

/// An entry is well formed when it records at least one path and no path twice.
pub open spec fn entry_wf(v: EntryView) -> bool {
    &&& v.paths.len() >= 1
    &&& forall|i: int, j: int| 0 <= i < j < v.paths.len() ==> v.paths[i] != v.paths[j]
}

impl FSEntry {
    /// A fresh entry holding a single path and the bottom heuristic value.
    pub fn new(dev: Dev, inode: INode, size: u64, priority: Priority, path: String) -> (r: Self)
        ensures
            r@ == (EntryView {
                dev,
                inode,
                size,
                priority,
                paths: seq![path@],
                hvalue: HeuristicView::Null,
            }),
            entry_wf(r@),
    {
        let r = FSEntry { dev, inode, size, priority, paths: vec![path], hvalue: Heuristic::Null };
        proof {
            assert(r@.paths =~= seq![path@]);
            assert(r@ =~= (EntryView {
                dev,
                inode,
                size,
                priority,
                paths: seq![path@],
                hvalue: HeuristicView::Null,
            }));
        }
        r
    }

    /// Appends an alias path, unless the same string is already recorded.
    pub fn add_path(&mut self, path: String)
        ensures
            old(self)@.paths.contains(path@) ==> final(self)@ == old(self)@,
            !old(self)@.paths.contains(path@) ==> final(self)@ == (EntryView {
                paths: old(self)@.paths.push(path@),
                ..old(self)@
            }),
            entry_wf(old(self)@) ==> entry_wf(final(self)@),
    {
        let mut i: usize = 0;
        let n = self.paths.len();
        while i < n
            invariant
                n == self.paths.len(),
                i <= n,
                *self == *old(self),
                forall|j: int| 0 <= j < i ==> self@.paths[j] != path@,
            decreases n - i,
        {
            if string_eq(&self.paths[i], &path) {
                proof {
                    assert(self@.paths[i as int] == path@);
                }
                return ;
            }
            i += 1;
        }
        proof {
            assert(!old(self)@.paths.contains(path@));
        }
        self.paths.push(path);
        proof {
            assert(self@.paths =~= old(self)@.paths.push(path@));
            assert(self@ =~= (EntryView { paths: old(self)@.paths.push(path@), ..old(self)@ }));
        }
    }
}

/// True when the two strings hold the same characters.
pub fn string_eq(a: &String, b: &String) -> (r: bool)
    ensures
        r == (a@ == b@),
{
    a.eq(b)
}

/// True when two path lists hold the same strings in the same order.
pub fn string_vecs_eq(a: &Vec<String>, b: &Vec<String>) -> (r: bool)
    ensures
        r == (a.deep_view() == b.deep_view()),
{
    let n = a.len();
    if n != b.len() {
        proof {
            assert(a.deep_view().len() != b.deep_view().len());
        }
        return false;
    }
    let mut i: usize = 0;
    while i < n
        invariant
            i <= n,
            n == a@.len(),
            n == b@.len(),
            forall|j: int| 0 <= j < i ==> a.deep_view()[j] == b.deep_view()[j],
        decreases n - i,
    {
        if !string_eq(&a[i], &b[i]) {
            proof {
                assert(a.deep_view()[i as int] != b.deep_view()[i as int]);
            }
            return false;
        }
        proof {
            assert(a.deep_view()[i as int] == b.deep_view()[i as int]);
        }
        i += 1;
    }
    proof {
        assert(a.deep_view() =~= b.deep_view());
    }
    true
}

impl PartialEq for Heuristic {
    /// Two heuristic values are equal exactly when their images are.
    fn eq(&self, other: &Heuristic) -> (r: bool) {
        matches!(crate::order::heur_cmp(self, other), core::cmp::Ordering::Equal)
    }
}

impl vstd::std_specs::cmp::PartialEqSpecImpl for Heuristic {
    open spec fn obeys_eq_spec() -> bool {
        true
    }

    open spec fn eq_spec(&self, other: &Heuristic) -> bool {
        self@ == other@
    }
}

impl PartialEq for FSEntry {
    /// Two entries are equal exactly when their images are.
    fn eq(&self, other: &FSEntry) -> (r: bool) {
        let r = self.dev == other.dev && self.inode == other.inode && self.size == other.size
            && self.priority == other.priority && string_vecs_eq(&self.paths, &other.paths)
            && self.hvalue.eq(&other.hvalue);
        proof {
            if r {
                assert(self@ =~= other@);
            }
        }
        r
    }
}

impl vstd::std_specs::cmp::PartialEqSpecImpl for FSEntry {
    open spec fn obeys_eq_spec() -> bool {
        true
    }

    open spec fn eq_spec(&self, other: &FSEntry) -> bool {
        self@ == other@
    }
}

} // verus!
