//! Relative-path computation for symlink targets: the path `R` such that
//! a link created at `dst` with target `R` resolves to `src`.

use vstd::prelude::*;

use vstd::string::{StrSliceExecFns, StringExecFns};

use crate::fs_entry::string_eq;

verus! {

broadcast use vstd::string::group_string_axioms;

/// The index of the first separator in `s`, or `s.len()` when none occurs.
pub open spec fn idx_of_slash(s: Seq<char>) -> int
    decreases s.len(),
{
    if s.len() == 0 {
        0
    } else if s[0] == '/' {
        0
    } else {
        1 + idx_of_slash(s.drop_first())
    }
}

proof fn lemma_idx_of_slash_bounds(s: Seq<char>)
    ensures
        0 <= idx_of_slash(s) <= s.len(),
        forall|m: int| 0 <= m < idx_of_slash(s) ==> s[m] != '/',
        idx_of_slash(s) < s.len() ==> s[idx_of_slash(s)] == '/',
    decreases s.len(),
{
    if s.len() > 0 && s[0] != '/' {
        lemma_idx_of_slash_bounds(s.drop_first());
        assert forall|m: int| 0 <= m < idx_of_slash(s) implies s[m] != '/' by {
            if m > 0 {
                assert(s[m] == s.drop_first()[m - 1]);
            }
        }
        if idx_of_slash(s) < s.len() {
            assert(s[idx_of_slash(s)] == s.drop_first()[idx_of_slash(s) - 1]);
        }
    }
}

proof fn lemma_idx_of_slash_at(s: Seq<char>, d: int)
    requires
        0 <= d <= s.len(),
        forall|m: int| 0 <= m < d ==> s[m] != '/',
        d == s.len() || s[d] == '/',
    ensures
        idx_of_slash(s) == d,
    decreases d,
{
    if d > 0 {
        lemma_idx_of_slash_at(s.drop_first(), d - 1);
    }
}

/// The components of a path string: the maximal separator-free non-empty
/// chunks, in order.  Repeated and trailing separators contribute nothing.
pub open spec fn split_comps(s: Seq<char>) -> Seq<Seq<char>>
    decreases s.len(),
    via split_comps_dec
{
    if s.len() == 0 {
        Seq::empty()
    } else if s[0] == '/' {
        split_comps(s.drop_first())
    } else {
        let k = idx_of_slash(s);
        seq![s.take(k)] + split_comps(s.skip(k))
    }
}

#[via_fn]
proof fn split_comps_dec(s: Seq<char>) {
    if s.len() > 0 && s[0] != '/' {
        lemma_idx_of_slash_bounds(s);
    }
}

proof fn lemma_split_skip_slash(s: Seq<char>, i: int)
    requires
        0 <= i < s.len(),
        s[i] == '/',
    ensures
        split_comps(s.skip(i)) == split_comps(s.skip(i + 1)),
{
    assert(s.skip(i)[0] == '/');
    assert(s.skip(i).drop_first() =~= s.skip(i + 1));
}

proof fn lemma_split_at_comp(s: Seq<char>, i: int, j: int)
    requires
        0 <= i < j <= s.len(),
        forall|m: int| i <= m < j ==> s[m] != '/',
        j == s.len() || s[j] == '/',
    ensures
        split_comps(s.skip(i)) == seq![s.subrange(i, j)] + split_comps(s.skip(j)),
{
    let t = s.skip(i);
    assert(t[0] != '/');
    assert forall|m: int| 0 <= m < j - i implies t[m] != '/' by {
        assert(t[m] == s[i + m]);
    }
    if j - i < t.len() {
        assert(t[j - i] == s[j]);
    }
    lemma_idx_of_slash_at(t, j - i);
    assert(t.take(j - i) =~= s.subrange(i, j));
    assert(t.skip(j - i) =~= s.skip(j));
}

/// Splits a path string into its components.
pub fn split_path(s: &str) -> (r: Vec<String>)
    ensures
        r.deep_view() == split_comps(s@),
{
    let n = s.unicode_len();
    let mut r: Vec<String> = Vec::new();
    let mut i: usize = 0;
    proof {
        assert(s@.skip(0) =~= s@);
        assert(r.deep_view() + split_comps(s@.skip(0)) =~= split_comps(s@));
    }
    while i < n
        invariant
            i <= n,
            n == s@.len(),
            r.deep_view() + split_comps(s@.skip(i as int)) == split_comps(s@),
        decreases n - i,
    {
        if s.get_char(i) == '/' {
            proof {
                lemma_split_skip_slash(s@, i as int);
            }
            i += 1;
        } else {
            let mut j: usize = i + 1;
            while j < n && s.get_char(j) != '/'
                invariant
                    i < j <= n,
                    n == s@.len(),
                    forall|m: int| i <= m < j ==> s@[m] != '/',
                    s@[i as int] != '/',
                decreases n - j,
            {
                j += 1;
            }
            let ghost r_prev = r.deep_view();
            let comp = s.substring_char(i, j).to_owned();
            r.push(comp);
            proof {
                lemma_split_at_comp(s@, i as int, j as int);
                assert(comp@ == s@.subrange(i as int, j as int));
                assert(r.deep_view() =~= r_prev.push(comp@));
                assert(r.deep_view() + split_comps(s@.skip(j as int)) =~= r_prev + (seq![
                    s@.subrange(i as int, j as int),
                ] + split_comps(s@.skip(j as int))));
            }
            i = j;
        }
    }
    proof {
        assert(s@.skip(n as int) =~= Seq::<char>::empty());
        assert(split_comps(s@.skip(n as int)) =~= Seq::<Seq<char>>::empty());
        assert(r.deep_view() =~= r.deep_view() + split_comps(s@.skip(n as int)));
    }
    r
}

/// The parent-directory component.
pub open spec fn dotdot() -> Seq<char> {
    seq!['.', '.']
}

/// The length of the longest common prefix of two component sequences.
pub open spec fn lcp_len(a: Seq<Seq<char>>, b: Seq<Seq<char>>) -> int
    decreases a.len(),
{
    if a.len() == 0 || b.len() == 0 || a[0] != b[0] {
        0
    } else {
        1 + lcp_len(a.drop_first(), b.drop_first())
    }
}

proof fn lemma_lcp_bounds(a: Seq<Seq<char>>, b: Seq<Seq<char>>)
    ensures
        0 <= lcp_len(a, b) <= a.len(),
        lcp_len(a, b) <= b.len(),
        forall|m: int| 0 <= m < lcp_len(a, b) ==> a[m] == b[m],
    decreases a.len(),
{
    if a.len() > 0 && b.len() > 0 && a[0] == b[0] {
        lemma_lcp_bounds(a.drop_first(), b.drop_first());
        assert forall|m: int| 0 <= m < lcp_len(a, b) implies a[m] == b[m] by {
            if m > 0 {
                assert(a.drop_first()[m - 1] == b.drop_first()[m - 1]);
            }
        }
    }
}

proof fn lemma_lcp_at(a: Seq<Seq<char>>, b: Seq<Seq<char>>, p: int)
    requires
        0 <= p <= a.len(),
        p <= b.len(),
        forall|m: int| 0 <= m < p ==> a[m] == b[m],
        p == a.len() || p == b.len() || a[p] != b[p],
    ensures
        lcp_len(a, b) == p,
    decreases p,
{
    if p > 0 {
        assert(a[0] == b[0]);
        lemma_lcp_at(a.drop_first(), b.drop_first(), p - 1);
    } else {
        if a.len() > 0 && b.len() > 0 {
            assert(a[0] != b[0]);
        }
    }
}

/// The relative route from the directory described by `dstp` to `src`:
/// one `..` for every `dstp` component past the common prefix, then the
/// remainder of `src`.
pub open spec fn rel_comps(src: Seq<Seq<char>>, dstp: Seq<Seq<char>>) -> Seq<Seq<char>> {
    let k = lcp_len(src, dstp);
    Seq::new((dstp.len() - k) as nat, |i: int| dotdot()) + src.skip(k)
}

/// Joins components with single separators; no leading or trailing one.
pub open spec fn join_comps(cs: Seq<Seq<char>>) -> Seq<char>
    decreases cs.len(),
{
    if cs.len() == 0 {
        Seq::empty()
    } else if cs.len() == 1 {
        cs[0]
    } else {
        join_comps(cs.drop_last()) + seq!['/'] + cs.last()
    }
}

/// Joins path components into a string.
pub fn join_path(parts: &Vec<String>) -> (r: String)
    ensures
        r@ == join_comps(parts.deep_view()),
{
    let mut r = String::new();
    let n = parts.len();
    let mut i: usize = 0;
    proof {
        assert(parts.deep_view().take(0) =~= Seq::<Seq<char>>::empty());
    }
    while i < n
        invariant
            i <= n,
            n == parts@.len(),
            r@ == join_comps(parts.deep_view().take(i as int)),
        decreases n - i,
    {
        if i > 0 {
            r.append("/");
        }
        r.append(parts[i].as_str());
        proof {
            reveal_strlit("/");
            assert("/"@ =~= seq!['/']);
            let cs = parts.deep_view();
            assert(parts@[i as int]@ == cs[i as int]);
            assert(cs.take(i + 1).drop_last() =~= cs.take(i as int));
            assert(cs.take(i + 1).last() == cs[i as int]);
            if i == 0 {
                assert(join_comps(cs.take(1)) == cs[0]) by {
                    assert(cs.take(1).len() == 1);
                    assert(cs.take(1)[0] == cs[0]);
                }
                assert(r@ =~= join_comps(cs.take(i + 1)));
            } else {
                assert(r@ =~= join_comps(cs.take(i as int)) + seq!['/'] + cs[i as int]);
            }
        }
        i += 1;
    }
    proof {
        assert(parts.deep_view().take(n as int) =~= parts.deep_view());
    }
    r
}

/// Computes the relative path from `src` (the link target) to `dst` (the
/// location of the link): the components of `dst`'s parent directory are
/// compared against `src`'s, a `..` is emitted for every unshared parent
/// component, and the unshared tail of `src` follows.  Trailing
/// separators carry no weight.  `dst` must have at least one component:
/// the route out of a bare root is undefined.
pub fn calculate_relative_path(src: &str, dst: &str) -> (r: String)
    requires
        split_comps(dst@).len() >= 1,
    ensures
        r@ == join_comps(rel_comps(split_comps(src@), split_comps(dst@).drop_last())),
{
    let comps_src = split_path(src);
    let mut comps_dst = split_path(dst);
    let ghost dstp = split_comps(dst@).drop_last();
    let _last = comps_dst.pop();
    proof {
        assert(comps_dst.deep_view() =~= dstp);
    }
    let n_src = comps_src.len();
    let n_dst = comps_dst.len();
    let mut k: usize = 0;
    while k < n_src && k < n_dst && string_eq(&comps_src[k], &comps_dst[k])
        invariant
            k <= n_src,
            k <= n_dst,
            n_src == comps_src@.len(),
            n_dst == comps_dst@.len(),
            forall|m: int|
                0 <= m < k ==> #[trigger] comps_src.deep_view()[m] == comps_dst.deep_view()[m],
        decreases n_src - k,
    {
        k += 1;
    }
    proof {
        lemma_lcp_at(comps_src.deep_view(), comps_dst.deep_view(), k as int);
    }
    let mut parts: Vec<String> = Vec::new();
    let mut i: usize = k;
    while i < n_dst
        invariant
            k <= i <= n_dst,
            n_dst == comps_dst@.len(),
            parts.deep_view() =~= Seq::new((i - k) as nat, |m: int| dotdot()),
        decreases n_dst - i,
    {
        let ghost p_prev = parts.deep_view();
        let d = String::from_str("..");
        proof {
            reveal_strlit("..");
            assert(d@ =~= dotdot());
        }
        parts.push(d);
        proof {
            assert(parts.deep_view() =~= p_prev.push(dotdot()));
            assert(parts.deep_view() =~= Seq::new((i + 1 - k) as nat, |m: int| dotdot()));
        }
        i += 1;
    }
    proof {
        assert(parts.deep_view() =~= Seq::new((n_dst - k) as nat, |m: int| dotdot())
            + comps_src.deep_view().subrange(k as int, k as int));
    }
    let mut j: usize = k;
    while j < n_src
        invariant
            k <= j <= n_src,
            k <= n_dst,
            n_dst == comps_dst@.len(),
            n_src == comps_src@.len(),
            parts.deep_view() =~= Seq::new((n_dst - k) as nat, |m: int| dotdot())
                + comps_src.deep_view().subrange(k as int, j as int),
        decreases n_src - j,
    {
        let ghost p_prev = parts.deep_view();
        let c = comps_src[j].clone();
        proof {
            assert(c@ == comps_src.deep_view()[j as int]);
        }
        parts.push(c);
        proof {
            assert(parts.deep_view() =~= p_prev.push(comps_src.deep_view()[j as int]));
            assert(parts.deep_view() =~= Seq::new((n_dst - k) as nat, |m: int| dotdot())
                + comps_src.deep_view().subrange(k as int, j + 1));
        }
        j += 1;
    }
    proof {
        let sv = comps_src.deep_view();
        let dv = comps_dst.deep_view();
        let kk = lcp_len(sv, dv);
        lemma_lcp_bounds(sv, dv);
        assert(kk == k as int);
        assert(sv.subrange(k as int, n_src as int) =~= sv.skip(kk));
        assert(parts.deep_view() =~= rel_comps(sv, dv));
    }
    join_path(&parts)
}

/// Every component a split produces is non-empty and separator-free.
pub proof fn lemma_split_wf(s: Seq<char>)
    ensures
        forall|i: int| 0 <= i < split_comps(s).len() ==> (#[trigger] split_comps(s)[i]).len() >= 1,
        forall|i: int, m: int|
            #![trigger split_comps(s)[i][m]]
            0 <= i < split_comps(s).len() && 0 <= m < split_comps(s)[i].len() ==> split_comps(
                s,
            )[i][m] != '/',
    decreases s.len(),
{
    if s.len() == 0 {
        assert(split_comps(s).len() == 0);
    } else if s[0] == '/' {
        lemma_split_wf(s.drop_first());
        assert(split_comps(s) == split_comps(s.drop_first()));
    } else {
        lemma_idx_of_slash_bounds(s);
        let k = idx_of_slash(s);
        lemma_split_wf(s.skip(k));
        let head = s.take(k);
        let rest = split_comps(s.skip(k));
        assert(split_comps(s) == seq![head] + rest);
        assert(head.len() >= 1);
        assert forall|i: int| 0 <= i < split_comps(s).len() implies (#[trigger] split_comps(
            s,
        )[i]).len() >= 1 by {
            if i == 0 {
                assert(split_comps(s)[0] == head);
            } else {
                assert(split_comps(s)[i] == rest[i - 1]);
            }
        }
        assert forall|i: int, m: int|
            #![trigger split_comps(s)[i][m]]
            0 <= i < split_comps(s).len() && 0 <= m < split_comps(s)[i].len() implies split_comps(
            s,
        )[i][m] != '/' by {
            if i == 0 {
                assert(split_comps(s)[0] == head);
                assert(head[m] == s[m]);
            } else {
                assert(split_comps(s)[i] == rest[i - 1]);
            }
        }
    }
}

/// A relative route consists of non-empty separator-free components
/// whenever the source components are such.
pub proof fn lemma_rel_comps_wf(src: Seq<Seq<char>>, dstp: Seq<Seq<char>>)
    requires
        forall|i: int| 0 <= i < src.len() ==> (#[trigger] src[i]).len() >= 1,
        forall|i: int, m: int|
            #![trigger src[i][m]]
            0 <= i < src.len() && 0 <= m < src[i].len() ==> src[i][m] != '/',
    ensures
        forall|i: int|
            0 <= i < rel_comps(src, dstp).len() ==> (#[trigger] rel_comps(src, dstp)[i]).len()
                >= 1,
        forall|i: int, m: int|
            #![trigger rel_comps(src, dstp)[i][m]]
            0 <= i < rel_comps(src, dstp).len() && 0 <= m < rel_comps(src, dstp)[i].len()
                ==> rel_comps(src, dstp)[i][m] != '/',
{
    lemma_lcp_bounds(src, dstp);
    let k = lcp_len(src, dstp);
    let rel = rel_comps(src, dstp);
    let dd_count = dstp.len() - k;
    assert(dotdot().len() == 2);
    assert(dotdot()[0] == '.' && dotdot()[1] == '.');
    assert forall|i: int| 0 <= i < rel.len() implies (#[trigger] rel[i]).len() >= 1 by {
        if i >= dd_count {
            assert(rel[i] == src.skip(k)[i - dd_count]);
            assert(src.skip(k)[i - dd_count] == src[i - dd_count + k]);
        } else {
            assert(rel[i] == dotdot());
        }
    }
    assert forall|i: int, m: int|
        #![trigger rel_comps(src, dstp)[i][m]]
        0 <= i < rel.len() && 0 <= m < rel[i].len() implies rel[i][m] != '/' by {
        if i >= dd_count {
            assert(rel[i] == src.skip(k)[i - dd_count]);
            assert(src.skip(k)[i - dd_count] == src[i - dd_count + k]);
            assert(src[i - dd_count + k][m] != '/');
        } else {
            assert(rel[i] == dotdot());
        }
    }
}

proof fn lemma_join_front(cs: Seq<Seq<char>>)
    requires
        cs.len() >= 2,
    ensures
        join_comps(cs) == cs[0] + seq!['/'] + join_comps(cs.drop_first()),
    decreases cs.len(),
{
    if cs.len() == 2 {
        assert(cs.drop_last() =~= seq![cs[0]]);
        assert(cs.drop_first() =~= seq![cs[1]]);
        assert(join_comps(cs) =~= cs[0] + seq!['/'] + join_comps(cs.drop_first()));
    } else {
        lemma_join_front(cs.drop_last());
        assert(cs.drop_last()[0] == cs[0]);
        assert(cs.drop_last().drop_first() =~= cs.drop_first().drop_last());
        assert(cs.drop_first().last() == cs.last());
        assert(cs.drop_first().len() >= 2);
        assert(join_comps(cs) == join_comps(cs.drop_last()) + seq!['/'] + cs.last());
        assert(join_comps(cs.drop_first()) == join_comps(cs.drop_first().drop_last()) + seq!['/']
            + cs.drop_first().last());
        assert(join_comps(cs) =~= cs[0] + seq!['/'] + join_comps(cs.drop_first()));
    }
}

/// Splitting a joined sequence of non-empty separator-free components
/// gives the components back.
pub proof fn lemma_split_join(cs: Seq<Seq<char>>)
    requires
        forall|i: int| 0 <= i < cs.len() ==> (#[trigger] cs[i]).len() >= 1,
        forall|i: int, m: int|
            #![trigger cs[i][m]]
            0 <= i < cs.len() && 0 <= m < cs[i].len() ==> cs[i][m] != '/',
    ensures
        split_comps(join_comps(cs)) == cs,
    decreases cs.len(),
{
    if cs.len() == 0 {
        assert(split_comps(join_comps(cs)) =~= cs);
    } else if cs.len() == 1 {
        let t = cs[0];
        assert(join_comps(cs) == t);
        assert(t[0] != '/');
        lemma_idx_of_slash_at(t, t.len() as int);
        assert(t.take(t.len() as int) =~= t);
        assert(t.skip(t.len() as int) =~= Seq::<char>::empty());
        assert(split_comps(t) =~= seq![t] + split_comps(Seq::<char>::empty()));
        assert(split_comps(join_comps(cs)) =~= cs);
    } else {
        lemma_join_front(cs);
        let t = join_comps(cs);
        let head = cs[0];
        let rest = join_comps(cs.drop_first());
        assert(t == head + seq!['/'] + rest);
        let hl = head.len() as int;
        assert(t.len() == hl + 1 + rest.len());
        assert forall|m: int| 0 <= m < hl implies t[m] != '/' by {
            assert(t[m] == head[m]);
        }
        assert(t[hl] == '/');
        assert(t[0] == head[0]);
        assert(t[0] != '/');
        lemma_idx_of_slash_at(t, hl);
        assert(t.take(hl) =~= head);
        assert(split_comps(t) == seq![head] + split_comps(t.skip(hl)));
        lemma_split_skip_slash(t, hl);
        assert(split_comps(t.skip(hl)) == split_comps(t.skip(hl + 1)));
        assert(t.skip(hl + 1) =~= rest);
        assert forall|i: int| 0 <= i < cs.drop_first().len() implies (#[trigger] cs.drop_first()[
            i
        ]).len() >= 1 by {
            assert(cs.drop_first()[i] == cs[i + 1]);
        }
        assert forall|i: int, m: int|
            #![trigger cs.drop_first()[i][m]]
            0 <= i < cs.drop_first().len() && 0 <= m < cs.drop_first()[i].len() implies cs
            .drop_first()[i][m] != '/' by {
            assert(cs.drop_first()[i] == cs[i + 1]);
            assert(cs[i + 1][m] != '/');
        }
        lemma_split_join(cs.drop_first());
        assert(split_comps(t) =~= seq![head] + cs.drop_first());
        assert(seq![head] + cs.drop_first() =~= cs);
    }
}

/// Left-to-right normalisation of a component sequence: a `..` cancels
/// the component before it when one is there to cancel.
pub open spec fn norm_from(acc: Seq<Seq<char>>, rest: Seq<Seq<char>>) -> Seq<Seq<char>>
    decreases rest.len(),
{
    if rest.len() == 0 {
        acc
    } else if rest[0] == dotdot() && acc.len() > 0 && acc.last() != dotdot() {
        norm_from(acc.drop_last(), rest.drop_first())
    } else {
        norm_from(acc.push(rest[0]), rest.drop_first())
    }
}

/// Normalised form of a component sequence.
pub open spec fn norm_comps(cs: Seq<Seq<char>>) -> Seq<Seq<char>> {
    norm_from(Seq::empty(), cs)
}

proof fn lemma_norm_plain(acc: Seq<Seq<char>>, xs: Seq<Seq<char>>, ys: Seq<Seq<char>>)
    requires
        forall|i: int| 0 <= i < xs.len() ==> xs[i] != dotdot(),
    ensures
        norm_from(acc, xs + ys) == norm_from(acc + xs, ys),
    decreases xs.len(),
{
    if xs.len() == 0 {
        assert(xs + ys =~= ys);
        assert(acc + xs =~= acc);
    } else {
        assert((xs + ys)[0] == xs[0]);
        assert(xs[0] != dotdot());
        assert((xs + ys).drop_first() =~= xs.drop_first() + ys);
        assert forall|i: int| 0 <= i < xs.drop_first().len() implies xs.drop_first()[i]
            != dotdot() by {
            assert(xs.drop_first()[i] == xs[i + 1]);
        }
        lemma_norm_plain(acc.push(xs[0]), xs.drop_first(), ys);
        assert(acc.push(xs[0]) + xs.drop_first() =~= acc + xs);
    }
}

proof fn lemma_norm_pops(acc: Seq<Seq<char>>, m: int, ys: Seq<Seq<char>>)
    requires
        0 <= m <= acc.len(),
        forall|i: int| 0 <= i < acc.len() ==> acc[i] != dotdot(),
    ensures
        norm_from(acc, Seq::new(m as nat, |i: int| dotdot()) + ys) == norm_from(
            acc.take(acc.len() - m),
            ys,
        ),
    decreases m,
{
    let dd = Seq::new(m as nat, |i: int| dotdot());
    if m == 0 {
        assert(dd + ys =~= ys);
        assert(acc.take(acc.len() as int) =~= acc);
    } else {
        assert((dd + ys)[0] == dotdot());
        assert(acc.len() > 0);
        assert(acc.last() != dotdot());
        assert((dd + ys).drop_first() =~= Seq::new((m - 1) as nat, |i: int| dotdot()) + ys);
        assert forall|i: int| 0 <= i < acc.drop_last().len() implies acc.drop_last()[i]
            != dotdot() by {
            assert(acc.drop_last()[i] == acc[i]);
        }
        lemma_norm_pops(acc.drop_last(), m - 1, ys);
        assert(acc.drop_last().take(acc.drop_last().len() - (m - 1)) =~= acc.take(acc.len() - m));
    }
}

/// Law: joining the link location's parent directory with the computed
/// relative route and normalising yields exactly the link target, which
/// normalisation leaves untouched.  Both component sequences must be free
/// of `..` components, as every path produced by a directory walk is.
pub proof fn lemma_relative_path_correct(src: Seq<Seq<char>>, dstp: Seq<Seq<char>>)
    requires
        forall|i: int| 0 <= i < src.len() ==> src[i] != dotdot(),
        forall|i: int| 0 <= i < dstp.len() ==> dstp[i] != dotdot(),
    ensures
        norm_comps(dstp + rel_comps(src, dstp)) == src,
        norm_comps(src) == src,
{
    let k = lcp_len(src, dstp);
    lemma_lcp_bounds(src, dstp);
    let dd = Seq::new((dstp.len() - k) as nat, |i: int| dotdot());
    let suffix = src.skip(k);
    assert forall|i: int| 0 <= i < suffix.len() implies suffix[i] != dotdot() by {
        assert(suffix[i] == src[i + k]);
    }
    lemma_norm_plain(Seq::empty(), src, Seq::empty());
    assert(src + Seq::<Seq<char>>::empty() =~= src);
    assert(Seq::<Seq<char>>::empty() + src =~= src);
    assert(norm_comps(src) == src);
    let joined = dstp + rel_comps(src, dstp);
    assert(joined =~= dstp + (dd + suffix));
    lemma_norm_plain(Seq::empty(), dstp, dd + suffix);
    assert(Seq::<Seq<char>>::empty() + dstp =~= dstp);
    lemma_norm_pops(dstp, dstp.len() - k, suffix);
    assert(dstp.take(k) =~= src.take(k));
    lemma_norm_plain(src.take(k), suffix, Seq::empty());
    assert(suffix + Seq::<Seq<char>>::empty() =~= suffix);
    assert(src.take(k) + suffix =~= src);
    assert(norm_comps(joined) == src);
}

} // verus!

