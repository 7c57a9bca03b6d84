//! Glob matching for include and exclude filters.  Pattern compilation
//! and matching are the outside glob implementation's work; this module
//! names what they do and applies the promotion rule that makes bare
//! patterns match by basename anywhere in the tree.

use vstd::prelude::*;

use vstd::string::{StrSliceExecFns, StringExecFns};

verus! {

broadcast use vstd::string::group_string_axioms;

/// Declares globset::GlobSet so that compiled filter sets can live in
/// the library's own structures; the set is opaque here.
#[verifier::external_type_specification]
#[verifier::external_body]
pub struct ExGlobSet(globset::GlobSet);

/// The patterns a compiled glob set was built from, in order.
pub uninterp spec fn glob_set_pats(gs: globset::GlobSet) -> Seq<Seq<char>>;

/// Whether any of the patterns matches the path, with literal path
/// separators, as the outside matcher decides it.
pub uninterp spec fn glob_match(pats: Seq<Seq<char>>, path: Seq<char>) -> bool;

/// Whether every one of the patterns is well formed, so that compiling
/// the set succeeds: a property of the patterns alone.
pub uninterp spec fn glob_pats_wf(pats: Seq<Seq<char>>) -> bool;

/// Relies on globset::GlobBuilder and globset::GlobSetBuilder: the set
/// compiles exactly the given patterns with literal separators, and
/// building fails exactly when some pattern is malformed.
#[verifier::external_body]
pub(crate) fn build_glob_set(patterns: &Vec<String>) -> (r: Result<globset::GlobSet, String>)
    ensures
        match r {
            Ok(gs) => glob_set_pats(gs) == patterns.deep_view() && glob_pats_wf(
                patterns.deep_view(),
            ),
            Err(_) => !glob_pats_wf(patterns.deep_view()),
        },
{
    let mut builder = globset::GlobSetBuilder::new();
    for pattern in patterns.iter() {
        let glob = globset::GlobBuilder::new(pattern).literal_separator(true).build().map_err(
            |e| e.to_string(),
        )?;
        builder.add(glob);
    }
    builder.build().map_err(|e| e.to_string())
}

/// Relies on globset::GlobSet::is_match: whether any pattern in the set
/// matches the path, a function of the compiled patterns and the path.
#[verifier::external_body]
pub(crate) fn glob_set_is_match(gs: &globset::GlobSet, path: &String) -> (r: bool)
    ensures
        r == glob_match(glob_set_pats(*gs), path@),
{
    gs.is_match(path.as_str())
}

/// The promotion applied to each user pattern: a pattern anchored at the
/// root or already starting with a doubled star stands as written; any
/// other is prefixed with a doubled star and a separator so that it
/// matches by basename anywhere in the tree.
pub open spec fn spec_promote(p: Seq<char>) -> Seq<char> {
    if p.len() >= 1 && p[0] == '/' {
        p
    } else if p.len() >= 2 && p[0] == '*' && p[1] == '*' {
        p
    } else {
        seq!['*', '*', '/'] + p
    }
}

/// The promoted forms of a pattern list.
pub open spec fn spec_promote_all(pats: Seq<Seq<char>>) -> Seq<Seq<char>> {
    pats.map_values(|p: Seq<char>| spec_promote(p))
}

/// Promotes one pattern.
pub fn promote_pattern(p: &String) -> (r: String)
    ensures
        r@ == spec_promote(p@),
{
    let s = p.as_str();
    let n = s.unicode_len();
    if n >= 1 && s.get_char(0) == '/' {
        p.clone()
    } else if n >= 2 && s.get_char(0) == '*' && s.get_char(1) == '*' {
        p.clone()
    } else {
        let mut r = String::from_str("**/");
        r.append(s);
        proof {
            reveal_strlit("**/");
            assert("**/"@ =~= seq!['*', '*', '/']);
        }
        r
    }
}

/// Promotes every pattern of a list.
pub fn promote_patterns(pats: &Vec<String>) -> (r: Vec<String>)
    ensures
        r.deep_view() == spec_promote_all(pats.deep_view()),
{
    let mut r: Vec<String> = Vec::new();
    let n = pats.len();
    let mut i: usize = 0;
    proof {
        assert(r.deep_view() =~= spec_promote_all(pats.deep_view()).take(0));
    }
    while i < n
        invariant
            i <= n,
            n == pats@.len(),
            r.deep_view() == spec_promote_all(pats.deep_view()).take(i as int),
        decreases n - i,
    {
        let ghost r_prev = r.deep_view();
        let q = promote_pattern(&pats[i]);
        proof {
            assert(pats@[i as int]@ == pats.deep_view()[i as int]);
        }
        r.push(q);
        proof {
            let all = spec_promote_all(pats.deep_view());
            assert(r.deep_view() =~= r_prev.push(all[i as int]));
            assert(r.deep_view() =~= all.take(i + 1));
        }
        i += 1;
    }
    proof {
        assert(spec_promote_all(pats.deep_view()).take(n as int) =~= spec_promote_all(
            pats.deep_view(),
        ));
    }
    r
}

} // verus!
