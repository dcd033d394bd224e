//! Which changes in the wiki folder call for a reindex.
//!
//! Editors litter the tree with swap files and `.git` churns on every command;
//! reindexing on those would be constant and pointless. Watching the folder
//! itself is left to the caller.

use vstd::prelude::*;
use crate::paths::{components, parts, part_view, Comp, Part};
use crate::text::{chars_of, span_is};
use crate::wiki::{ascii_lower_exec, eq_ignore_case};

verus! {

/// Names whose churn never means a page changed.
pub open spec fn noise_name(n: Seq<char>) -> bool {
    n == ".git"@ || n == ".DS_Store"@
}

/// Some component of the path is `.git` or `.DS_Store`.
pub open spec fn has_noise(cs: Seq<Comp>) -> bool {
    exists|k: int| 0 <= k < cs.len() && (#[trigger] cs[k] matches Comp::Normal(n) && noise_name(n))
}

/// The final component, when it is a name.
pub open spec fn file_name_of(cs: Seq<Comp>) -> Option<Seq<char>> {
    if cs.len() > 0 && cs.last() is Normal {
        Some(cs.last()->Normal_0)
    } else {
        None
    }
}

/// The index of the last `c` in `s`, or `-1`.
pub open spec fn last_index_of(s: Seq<char>, c: char) -> int
    decreases s.len(),
{
    if s.len() == 0 {
        -1
    } else if s.last() == c {
        s.len() - 1
    } else {
        last_index_of(s.drop_last(), c)
    }
}

/// The extension of a file name: what follows its last `.`, unless that dot
/// starts the name.
pub open spec fn extension_of(name: Seq<char>) -> Option<Seq<char>> {
    let d = last_index_of(name, '.');
    if d <= 0 {
        None
    } else {
        Some(name.subrange(d + 1, name.len() as int))
    }
}

/// Files that live in the wiki but are not pages: the schema, the derived
/// index and the journal. Reacting to `index.md` would mean every reindex
/// triggered another one.
pub open spec fn derived_name(n: Seq<char>) -> bool {
    n == "index.md"@ || n == "log.md"@ || n == "AGENTS.md"@
}

/// A change to `path` calls for a reindex.
pub open spec fn relevant_spec(path: Seq<char>) -> bool {
    let cs = components(path);
    if has_noise(cs) {
        false
    } else {
        match file_name_of(cs) {
            Some(n) => if derived_name(n) {
                false
            } else {
                match extension_of(n) {
                    // A deletion arrives with no extension left to inspect, so
                    // anything extensionless stays relevant.
                    None => true,
                    Some(e) => eq_ignore_case(e, "md"@) && !(path.len() > 0 && path.last() == '~'),
                }
            },
            None => true,
        }
    }
}

pub(crate) fn last_dot(v: &Vec<char>) -> (r: Option<usize>)
    ensures
        match r {
            Some(d) => d < v@.len() && last_index_of(v@, '.') == d,
            None => last_index_of(v@, '.') == -1,
        },
{
    let mut k = v.len();
    assert(v@.subrange(0, v@.len() as int) =~= v@);
    while k > 0
        invariant
            k <= v@.len(),
            last_index_of(v@.subrange(0, k as int), '.') == last_index_of(v@, '.'),
        decreases k,
    {
        let ghost w = v@.subrange(0, k as int);
        if v[k - 1] == '.' {
            assert(w.last() == '.');
            return Some(k - 1);
        }
        assert(w.drop_last() =~= v@.subrange(0, k - 1));
        k -= 1;
    }
    None
}

/// True for paths whose change should trigger a reindex: not editor or
/// version-control noise, not a derived file, and markdown unless there is
/// no extension to judge by.
pub fn is_relevant(path: &str) -> (r: bool)
    ensures
        r == relevant_spec(path@),
{
    let v = chars_of(path);
    let ps = parts(&v);
    let ghost cs = components(v@);
    let mut k: usize = 0;
    while k < ps.len()
        invariant
            k <= ps@.len(),
            v@ == path@,
            cs == components(v@),
            crate::paths::parts_view(v@, ps@) == cs,
            crate::paths::parts_ok(v@, ps@),
            forall|j: int|
                0 <= j < k ==> !(#[trigger] cs[j] matches Comp::Normal(n) && noise_name(n)),
        decreases ps.len() - k,
    {
        assert(cs[k as int] == part_view(v@, ps@[k as int]));
        match ps[k] {
            Part::Normal(lo, hi) => {
                assert(lo <= hi <= v@.len());
                if span_is(&v, lo, hi, ".git") || span_is(&v, lo, hi, ".DS_Store") {
                    assert(cs[k as int] == Comp::Normal(v@.subrange(lo as int, hi as int)));
                    assert(cs[k as int] matches Comp::Normal(n) && noise_name(n));
                    assert(has_noise(cs));
                    return false;
                }
            },
            _ => {},
        }
        k += 1;
    }
    if ps.len() == 0 {
        return true;
    }
    let (lo, hi) = match ps[ps.len() - 1] {
        Part::Normal(lo, hi) => (lo, hi),
        _ => {
            return true;
        },
    };
    assert(cs.last() == part_view(v@, ps@[ps@.len() - 1]));
    assert(lo <= hi <= v@.len());
    if span_is(&v, lo, hi, "index.md") || span_is(&v, lo, hi, "log.md") || span_is(
        &v,
        lo,
        hi,
        "AGENTS.md",
    ) {
        return false;
    }
    let name = crate::text::slice_vec(&v, lo, hi);
    let d = match last_dot(&name) {
        Some(d) => d,
        None => {
            return true;
        },
    };
    if d == 0 {
        return true;
    }
    let ghost ext = name@.subrange(d + 1, name@.len() as int);
    let is_md = name.len() - (d + 1) == 2 && ascii_lower_exec(name[d + 1]) == 'm' && ascii_lower_exec(
        name[d + 2],
    ) == 'd';
    proof {
        reveal_strlit("md");
        if ext.len() == 2 {
            assert(ext[0] == name@[d + 1] && ext[1] == name@[d + 2]);
        }
        assert(is_md == eq_ignore_case(ext, "md"@));
    }
    is_md && !(v.len() > 0 && v[v.len() - 1] == '~')
}


/// Writing the derived files never triggers a reindex: the reindex writes
/// `index.md`, so reacting to it would loop forever.
pub proof fn law_derived_files_never_trigger(path: Seq<char>)
    requires
        file_name_of(components(path)) matches Some(n) && derived_name(n),
    ensures
        !relevant_spec(path),
{
}

/// Version-control and Finder churn never triggers a reindex.
pub proof fn law_noise_never_triggers(path: Seq<char>, k: int)
    requires
        0 <= k < components(path).len(),
        components(path)[k] matches Comp::Normal(n) && noise_name(n),
    ensures
        !relevant_spec(path),
{
    assert(has_noise(components(path)));
}

} // verus!
