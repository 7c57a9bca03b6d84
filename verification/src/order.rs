//! The total order behind every pipeline stage: entries compare by
//! device (when enabled), then size, then heuristic value; heuristic
//! values compare by variant tag, then payload, byte payloads
//! lexicographically.

use vstd::prelude::*;

use crate::fs_entry::{EntryView, Heuristic, HeuristicView};

verus! {

/// Strict lexicographic order on byte strings; a proper prefix comes first.
pub open spec fn bytes_lt(a: Seq<u8>, b: Seq<u8>) -> bool
    decreases a.len(),
{
    if b.len() == 0 {
        false
    } else if a.len() == 0 {
        true
    } else if a[0] < b[0] {
        true
    } else if b[0] < a[0] {
        false
    } else {
        bytes_lt(a.drop_first(), b.drop_first())
    }
}

/// The fixed rank of each heuristic variant.
pub open spec fn heur_rank(h: HeuristicView) -> int {
    match h {
        HeuristicView::Null => 0,
        HeuristicView::Device(_) => 1,
        HeuristicView::Size(_) => 2,
        HeuristicView::Bytes(_) => 3,
        HeuristicView::Hash(_) => 4,
    }
}

/// Strict order on heuristic values: variant rank first, then payload.
pub open spec fn heur_lt(a: HeuristicView, b: HeuristicView) -> bool {
    if heur_rank(a) != heur_rank(b) {
        heur_rank(a) < heur_rank(b)
    } else {
        match (a, b) {
            (HeuristicView::Device(x), HeuristicView::Device(y)) => x < y,
            (HeuristicView::Size(x), HeuristicView::Size(y)) => x < y,
            (HeuristicView::Bytes(x), HeuristicView::Bytes(y)) => bytes_lt(x, y),
            (HeuristicView::Hash(x), HeuristicView::Hash(y)) => bytes_lt(x, y),
            _ => false,
        }
    }
}

/// Strict order on entries: device (when `cmp_dev`), then size, then heuristic.
pub open spec fn entry_lt(a: EntryView, b: EntryView, cmp_dev: bool) -> bool {
    if cmp_dev && a.dev != b.dev {
        a.dev < b.dev
    } else if a.size != b.size {
        a.size < b.size
    } else {
        heur_lt(a.hvalue, b.hvalue)
    }
}

/// The equivalence induced by the comparator: what "duplicate candidate"
/// means at a given stage.
pub open spec fn entry_equiv(a: EntryView, b: EntryView, cmp_dev: bool) -> bool {
    &&& cmp_dev ==> a.dev == b.dev
    &&& a.size == b.size
    &&& a.hvalue == b.hvalue
}

/// Sortedness under the stage comparator.
pub open spec fn entries_sorted(s: Seq<EntryView>, cmp_dev: bool) -> bool {
    forall|i: int, j: int| 0 <= i < j < s.len() ==> !entry_lt(s[j], s[i], cmp_dev)
}

pub proof fn lemma_bytes_lt_total(a: Seq<u8>, b: Seq<u8>)
    ensures
        !bytes_lt(a, b) && !bytes_lt(b, a) ==> a == b,
        !(bytes_lt(a, b) && bytes_lt(b, a)),
    decreases a.len(),
{
    if a.len() > 0 && b.len() > 0 && a[0] == b[0] {
        lemma_bytes_lt_total(a.drop_first(), b.drop_first());
        if !bytes_lt(a, b) && !bytes_lt(b, a) {
            assert(a.drop_first() == b.drop_first());
            assert(a.len() == b.len());
            assert forall|i: int| 0 <= i < a.len() implies a[i] == b[i] by {
                if i > 0 {
                    assert(a[i] == a.drop_first()[i - 1]);
                    assert(b[i] == b.drop_first()[i - 1]);
                }
            }
            assert(a =~= b);
        }
    } else {
        if !bytes_lt(a, b) && !bytes_lt(b, a) {
            assert(a.len() == 0 && b.len() == 0);
            assert(a =~= b);
        }
    }
}

pub proof fn lemma_bytes_lt_trans(a: Seq<u8>, b: Seq<u8>, c: Seq<u8>)
    requires
        bytes_lt(a, b),
        bytes_lt(b, c),
    ensures
        bytes_lt(a, c),
    decreases b.len(),
{
    if a.len() > 0 && b.len() > 0 && c.len() > 0 && a[0] == b[0] && b[0] == c[0] {
        lemma_bytes_lt_trans(a.drop_first(), b.drop_first(), c.drop_first());
    }
}

pub proof fn lemma_heur_lt_total(a: HeuristicView, b: HeuristicView)
    ensures
        !heur_lt(a, b) && !heur_lt(b, a) ==> a == b,
        !(heur_lt(a, b) && heur_lt(b, a)),
{
    match (a, b) {
        (HeuristicView::Bytes(x), HeuristicView::Bytes(y)) => lemma_bytes_lt_total(x, y),
        (HeuristicView::Hash(x), HeuristicView::Hash(y)) => lemma_bytes_lt_total(x, y),
        _ => {},
    }
}

pub proof fn lemma_heur_lt_trans(a: HeuristicView, b: HeuristicView, c: HeuristicView)
    requires
        heur_lt(a, b),
        heur_lt(b, c),
    ensures
        heur_lt(a, c),
{
    match (a, b) {
        (HeuristicView::Bytes(x), HeuristicView::Bytes(y)) => {
            if let HeuristicView::Bytes(z) = c {
                if heur_rank(a) == heur_rank(b) && heur_rank(b) == heur_rank(c) {
                    lemma_bytes_lt_trans(x, y, z);
                }
            }
        },
        (HeuristicView::Hash(x), HeuristicView::Hash(y)) => {
            if let HeuristicView::Hash(z) = c {
                if heur_rank(a) == heur_rank(b) && heur_rank(b) == heur_rank(c) {
                    lemma_bytes_lt_trans(x, y, z);
                }
            }
        },
        _ => {},
    }
}

/// The stage comparator is a total preorder whose symmetric kernel is
/// `entry_equiv`, and `entry_equiv` is a congruence for it.
pub proof fn lemma_entry_order(cmp_dev: bool)
    ensures
        forall|a: EntryView, b: EntryView, c: EntryView|
            entry_lt(a, b, cmp_dev) && #[trigger] entry_lt(b, c, cmp_dev) ==> #[trigger] entry_lt(
                a,
                c,
                cmp_dev,
            ),
        forall|a: EntryView, b: EntryView|
            #[trigger] entry_equiv(a, b, cmp_dev) ==> !entry_lt(a, b, cmp_dev) && !entry_lt(
                b,
                a,
                cmp_dev,
            ),
        forall|a: EntryView, b: EntryView|
            !entry_lt(a, b, cmp_dev) && !#[trigger] entry_lt(b, a, cmp_dev) ==> entry_equiv(
                a,
                b,
                cmp_dev,
            ),
{
    assert forall|a: EntryView, b: EntryView, c: EntryView|
        entry_lt(a, b, cmp_dev) && #[trigger] entry_lt(b, c, cmp_dev) implies #[trigger] entry_lt(
        a,
        c,
        cmp_dev,
    ) by {
        if (!cmp_dev || a.dev == b.dev) && a.size == b.size && (!cmp_dev || b.dev == c.dev)
            && b.size == c.size {
            lemma_heur_lt_trans(a.hvalue, b.hvalue, c.hvalue);
        }
    }
    assert forall|a: EntryView, b: EntryView|
        #[trigger] entry_equiv(a, b, cmp_dev) implies !entry_lt(a, b, cmp_dev) && !entry_lt(
        b,
        a,
        cmp_dev,
    ) by {
        lemma_heur_lt_total(a.hvalue, b.hvalue);
    }
    assert forall|a: EntryView, b: EntryView|
        !entry_lt(a, b, cmp_dev) && !#[trigger] entry_lt(b, a, cmp_dev) implies entry_equiv(
        a,
        b,
        cmp_dev,
    ) by {
        lemma_heur_lt_total(a.hvalue, b.hvalue);
    }
}

/// Decides byte-string order; the result mirrors `bytes_lt` exactly.
pub fn bytes_cmp(a: &Vec<u8>, b: &Vec<u8>) -> (r: core::cmp::Ordering)
    ensures
        (r == core::cmp::Ordering::Less) == bytes_lt(a@, b@),
        (r == core::cmp::Ordering::Greater) == bytes_lt(b@, a@),
        (r == core::cmp::Ordering::Equal) == (a@ == b@),
{
    let la = a.len();
    let lb = b.len();
    let mut i: usize = 0;
    while i < la && i < lb && a[i] == b[i]
        invariant
            la == a@.len(),
            lb == b@.len(),
            i <= la,
            i <= lb,
            forall|j: int| 0 <= j < i ==> a@[j] == b@[j],
        decreases la - i,
    {
        i += 1;
    }
    proof {
        lemma_bytes_lt_skip(a@, b@, i as int);
    }
    if i == la && i == lb {
        proof {
            assert(a@ =~= b@);
        }
        core::cmp::Ordering::Equal
    } else if i == la {
        proof {
            lemma_bytes_lt_total(a@, b@);
        }
        core::cmp::Ordering::Less
    } else if i == lb {
        proof {
            lemma_bytes_lt_total(a@, b@);
        }
        core::cmp::Ordering::Greater
    } else {
        proof {
            assert(a@.skip(i as int)[0] == a@[i as int]);
            assert(b@.skip(i as int)[0] == b@[i as int]);
            lemma_bytes_lt_total(a@, b@);
            if a@[i as int] < b@[i as int] {
                assert(bytes_lt(a@.skip(i as int), b@.skip(i as int)));
            } else {
                assert(bytes_lt(b@.skip(i as int), a@.skip(i as int)));
            }
        }
        if a[i] < b[i] {
            core::cmp::Ordering::Less
        } else {
            core::cmp::Ordering::Greater
        }
    }
}

pub proof fn lemma_bytes_lt_skip(a: Seq<u8>, b: Seq<u8>, i: int)
    requires
        0 <= i <= a.len(),
        i <= b.len(),
        forall|j: int| 0 <= j < i ==> a[j] == b[j],
    ensures
        bytes_lt(a, b) == bytes_lt(a.skip(i), b.skip(i)),
    decreases i,
{
    if i > 0 {
        assert(a[0] == b[0]);
        lemma_bytes_lt_skip(a.drop_first(), b.drop_first(), i - 1);
        assert(a.drop_first().skip(i - 1) =~= a.skip(i));
        assert(b.drop_first().skip(i - 1) =~= b.skip(i));
    } else {
        assert(a.skip(0) =~= a);
        assert(b.skip(0) =~= b);
    }
}

/// The rank of a heuristic variant, as executable code.
fn heur_tag(h: &Heuristic) -> (t: u8)
    ensures
        t as int == heur_rank(h@),
{
    match h {
        Heuristic::Null => 0,
        Heuristic::Device(_) => 1,
        Heuristic::Size(_) => 2,
        Heuristic::Bytes(_) => 3,
        Heuristic::Hash(_) => 4,
    }
}

/// Decides `u64` order.
pub fn u64_cmp(a: u64, b: u64) -> (r: core::cmp::Ordering)
    ensures
        (r == core::cmp::Ordering::Less) == (a < b),
        (r == core::cmp::Ordering::Greater) == (a > b),
        (r == core::cmp::Ordering::Equal) == (a == b),
{
    if a < b {
        core::cmp::Ordering::Less
    } else if b < a {
        core::cmp::Ordering::Greater
    } else {
        core::cmp::Ordering::Equal
    }
}

/// Decides heuristic order; the result mirrors `heur_lt` exactly.
pub fn heur_cmp(a: &Heuristic, b: &Heuristic) -> (r: core::cmp::Ordering)
    ensures
        (r == core::cmp::Ordering::Less) == heur_lt(a@, b@),
        (r == core::cmp::Ordering::Greater) == heur_lt(b@, a@),
        (r == core::cmp::Ordering::Equal) == (a@ == b@),
{
    let ta = heur_tag(a);
    let tb = heur_tag(b);
    if ta < tb {
        core::cmp::Ordering::Less
    } else if tb < ta {
        core::cmp::Ordering::Greater
    } else {
        match (a, b) {
            (Heuristic::Null, Heuristic::Null) => core::cmp::Ordering::Equal,
            (Heuristic::Device(x), Heuristic::Device(y)) => u64_cmp(*x, *y),
            (Heuristic::Size(x), Heuristic::Size(y)) => u64_cmp(*x, *y),
            (Heuristic::Bytes(x), Heuristic::Bytes(y)) => bytes_cmp(x, y),
            (Heuristic::Hash(x), Heuristic::Hash(y)) => bytes_cmp(x, y),
            _ => {
                proof {
                    assert(false);
                }
                core::cmp::Ordering::Equal
            },
        }
    }
}

} // verus!
