//! Run configuration: the action to take on duplicates and the knobs
//! that steer collection, the pipeline, and failure handling.

use vstd::prelude::*;

use vstd::string::{StrSliceExecFns, StringExecFns};

verus! {

broadcast use vstd::string::group_string_axioms;

/// What to do with each group of duplicates.
#[derive(Clone, Copy, PartialEq, Eq, Structural, Debug)]
pub enum DedupAction {
    Symlink,
    Hardlink,
    Print,
}

/// The full run configuration.
pub struct Args {
    pub paths: Vec<String>,
    pub action: DedupAction,
    pub result_path: Option<String>,
    pub includes: Vec<String>,
    pub excludes: Vec<String>,
    pub abort_on_error: bool,
    pub show_progress: bool,
    pub verbosity: String,
    pub one_file_system: bool,
    pub hash: String,
    pub n_read: usize,
    pub min_file_size: Option<u64>,
    pub max_file_size: Option<u64>,
    pub dry_run: bool,
}

/// True when the two string slices hold the same characters.
pub fn str_eq(a: &str, b: &str) -> (r: bool)
    ensures
        r == (a@ == b@),
{
    let la = a.unicode_len();
    let lb = b.unicode_len();
    if la != lb {
        return false;
    }
    let mut i: usize = 0;
    while i < la
        invariant
            i <= la,
            la == a@.len(),
            la == b@.len(),
            forall|j: int| 0 <= j < i ==> a@[j] == b@[j],
        decreases la - i,
    {
        if a.get_char(i) != b.get_char(i) {
            return false;
        }
        i += 1;
    }
    proof {
        assert(a@ =~= b@);
    }
    true
}

impl DedupAction {
    /// Parses an action name; anything but the three known names is refused.
    pub fn from_str(s: &str) -> (r: Result<DedupAction, String>)
        ensures
            s@ == "hardlink"@ ==> r == Ok::<DedupAction, String>(DedupAction::Hardlink),
            s@ == "symlink"@ ==> r == Ok::<DedupAction, String>(DedupAction::Symlink),
            s@ == "print"@ ==> r == Ok::<DedupAction, String>(DedupAction::Print),
            s@ != "hardlink"@ && s@ != "symlink"@ && s@ != "print"@ ==> (r matches Err(m) && m@
                == "Cannot parse dedup action: "@ + s@),
    {
        proof {
            reveal_strlit("hardlink");
            reveal_strlit("symlink");
            reveal_strlit("print");
            assert("hardlink"@.len() == 8);
            assert("symlink"@.len() == 7);
            assert("print"@.len() == 5);
        }
        if str_eq(s, "hardlink") {
            Ok(DedupAction::Hardlink)
        } else if str_eq(s, "symlink") {
            Ok(DedupAction::Symlink)
        } else if str_eq(s, "print") {
            Ok(DedupAction::Print)
        } else {
            let mut m = String::from_str("Cannot parse dedup action: ");
            m.append(s);
            Err(m)
        }
    }
}

/// The verbosity name selected by a net level of `v` increments and `q`
/// decrements: two or more up is trace, one up is debug, level zero is
/// info, one down is warn, two or more down is error.
pub fn verbosity_from_counts(v: u64, q: u64) -> (r: &'static str)
    ensures
        v >= q + 2 ==> r@ == "trace"@,
        v == q + 1 ==> r@ == "debug"@,
        v == q ==> r@ == "info"@,
        q == v + 1 ==> r@ == "warn"@,
        q >= v + 2 ==> r@ == "error"@,
{
    if v >= q {
        let d = v - q;
        if d >= 2 {
            "trace"
        } else if d == 1 {
            "debug"
        } else {
            "info"
        }
    } else {
        let d = q - v;
        if d >= 2 {
            "error"
        } else {
            "warn"
        }
    }
}

/// The default exclude patterns applied unless the user opts out.
pub fn default_excludes() -> (r: Vec<String>)
    ensures
        r.deep_view() =~= seq![".git"@, ".svn"@],
{
    let mut r: Vec<String> = Vec::new();
    r.push(String::from_str(".git"));
    r.push(String::from_str(".svn"));
    proof {
        assert(r.deep_view() =~= seq![".git"@, ".svn"@]);
    }
    r
}

/// The exclude list for a run: the default patterns, unless suppressed,
/// followed by the user's own patterns in order.
pub fn build_excludes(ignore_default_excludes: bool, user: Vec<String>) -> (r: Vec<String>)
    ensures
        ignore_default_excludes ==> r.deep_view() == user.deep_view(),
        !ignore_default_excludes ==> r.deep_view() =~= seq![".git"@, ".svn"@] + user.deep_view(),
{
    if ignore_default_excludes {
        user
    } else {
        let mut r = default_excludes();
        let ghost base = r.deep_view();
        let mut rest = user;
        let ghost user_v = rest.deep_view();
        let mut i: usize = 0;
        let n = rest.len();
        while i < n
            invariant
                i <= n,
                n == rest@.len(),
                rest.deep_view() == user_v,
                r.deep_view() =~= base + user_v.take(i as int),
            decreases n - i,
        {
            let ghost r_prev = r.deep_view();
            let p = rest[i].clone();
            proof {
                assert(p@ == user_v[i as int]);
            }
            r.push(p);
            proof {
                assert(r.deep_view() =~= r_prev.push(user_v[i as int]));
                assert(r.deep_view() =~= base + user_v.take(i + 1));
            }
            i += 1;
        }
        proof {
            assert(user_v.take(n as int) =~= user_v);
        }
        r
    }
}

} // verus!
