//! Literal search-and-replace over video file names: every occurrence of a
//! target substring is replaced, scanning left to right without overlap, as
//! plain string semantics demand. An empty target is refused before any work.

use vstd::prelude::*;
use crate::renumber::RenamePair;
use crate::text::clone_string;

verus! {

/// Why a search-and-replace request is refused.
#[derive(Debug)]
pub enum ReplaceError {
    /// The target string is empty, so there is nothing to search for.
    EmptyTarget,
}

/// `s` with every occurrence of `pat` replaced by `rep`, scanning left to
/// right and never rescanning replaced text.
pub open spec fn spec_replace(s: Seq<char>, pat: Seq<char>, rep: Seq<char>) -> Seq<char>
    recommends
        pat.len() > 0,
    decreases s.len(),
    when pat.len() > 0
{
    if s.len() < pat.len() {
        s
    } else if s.subrange(0, pat.len() as int) == pat {
        rep + spec_replace(s.skip(pat.len() as int), pat, rep)
    } else {
        seq![s[0]] + spec_replace(s.skip(1), pat, rep)
    }
}

/// Whether `pat` occurs in `s` starting at `i`.
fn matches_at(s: &str, n: usize, i: usize, pat: &str, m: usize) -> (r: bool)
    requires
        n == s@.len(),
        m == pat@.len(),
        i + m <= n,
    ensures
        r == (s@.subrange(i as int, i + m) == pat@),
{
    let mut j: usize = 0;
    while j < m
        invariant
            j <= m,
            n == s@.len(),
            m == pat@.len(),
            i + m <= n,
            forall|k: int| 0 <= k < j ==> s@[i + k] == pat@[k],
        decreases m - j,
    {
        if s.get_char(i + j) != pat.get_char(j) {
            proof {
                assert(s@.subrange(i as int, i + m)[j as int] != pat@[j as int]);
            }
            return false;
        }
        j = j + 1;
    }
    proof {
        assert(s@.subrange(i as int, i + m) =~= pat@);
    }
    true
}

/// Replaces every occurrence of `target` in `name` by `replacement`.
pub fn replace_in_name(name: &str, target: &str, replacement: &str) -> (r: String)
    requires
        target@.len() > 0,
    ensures
        r@ == spec_replace(name@, target@, replacement@),
{
    let n = name.unicode_len();
    let m = target.unicode_len();
    proof {
        reveal_strlit("");
        assert(name@.skip(0) =~= name@);
    }
    let mut out = String::from_str("");
    let mut i: usize = 0;
    while i < n
        invariant
            i <= n,
            n == name@.len(),
            m == target@.len(),
            m > 0,
            spec_replace(name@, target@, replacement@) == out@ + spec_replace(
                name@.skip(i as int),
                target@,
                replacement@,
            ),
        decreases n - i,
    {
        let ghost rest = name@.skip(i as int);
        if m <= n - i && matches_at(name, n, i, target, m) {
            proof {
                assert(rest.subrange(0, m as int) =~= name@.subrange(i as int, i + m));
                assert(rest.skip(m as int) =~= name@.skip(i + m));
            }
            out.append(replacement);
            i = i + m;
        } else {
            proof {
                if i + m <= n {
                    assert(rest.subrange(0, m as int) =~= name@.subrange(i as int, i + m));
                }
                assert(rest.skip(1) =~= name@.skip(i as int + 1));
                assert(seq![rest[0]] =~= name@.subrange(i as int, i as int + 1));
            }
            let piece = name.substring_char(i, i + 1);
            out.append(piece);
            i = i + 1;
        }
    }
    proof {
        assert(name@.skip(n as int) =~= Seq::<char>::empty());
    }
    out
}

/// Computes the replaced name of every file, in order; refused when the
/// target is empty, before anything is touched.
pub fn search_replace_preview(names: &Vec<String>, target: &str, replacement: &str) -> (r: Result<
    Vec<String>,
    ReplaceError,
>)
    ensures
        match r {
            Ok(out) => target@.len() > 0 && out.deep_view().len() == names.deep_view().len()
                && forall|j: int|
                0 <= j < names.deep_view().len() ==> out.deep_view()[j] == spec_replace(
                    #[trigger] names.deep_view()[j],
                    target@,
                    replacement@,
                ),
            Err(ReplaceError::EmptyTarget) => target@.len() == 0,
        },
{
    let ghost nv = names.deep_view();
    if target.unicode_len() == 0 {
        return Err(ReplaceError::EmptyTarget);
    }
    let mut out: Vec<String> = Vec::new();
    let mut i: usize = 0;
    while i < names.len()
        invariant
            i <= names.len(),
            nv == names.deep_view(),
            nv.len() == names@.len(),
            target@.len() > 0,
            out.deep_view().len() == i as int,
            forall|j: int|
                0 <= j < i ==> out.deep_view()[j] == spec_replace(
                    #[trigger] nv[j],
                    target@,
                    replacement@,
                ),
        decreases names.len() - i,
    {
        proof {
            assert(nv[i as int] == names@[i as int]@);
        }
        out.push(replace_in_name(names[i].as_str(), target, replacement));
        i = i + 1;
    }
    Ok(out)
}

/// The whole contract of a search-and-replace plan over names `nv`: each
/// entry replaces within one of the names and actually changes it, and every
/// name the replacement would change has an entry.
pub open spec fn spec_replace_plan_ok(
    nv: Seq<Seq<char>>,
    pat: Seq<char>,
    rep: Seq<char>,
    plan: Seq<RenamePair>,
) -> bool {
    &&& (forall|k: int|
        0 <= k < plan.len() ==> ((#[trigger] plan[k].new_name@) == spec_replace(
            plan[k].old_name@,
            pat,
            rep,
        ) && plan[k].new_name@ != plan[k].old_name@ && exists|j: int|
            0 <= j < nv.len() && nv[j] == plan[k].old_name@))
    &&& (forall|j: int|
        0 <= j < nv.len() && spec_replace(#[trigger] nv[j], pat, rep) != nv[j] ==> exists|k: int|
            0 <= k < plan.len() && plan[k].old_name@ == nv[j])
}

/// Plans the renames a search-and-replace would perform: one pair per file
/// whose name actually changes, in directory order; files whose replaced name
/// equals the old one are skipped. Refused when the target is empty.
pub fn search_replace_plan(names: &Vec<String>, target: &str, replacement: &str) -> (r: Result<
    Vec<RenamePair>,
    ReplaceError,
>)
    ensures
        match r {
            Ok(plan) => target@.len() > 0 && spec_replace_plan_ok(
                names.deep_view(),
                target@,
                replacement@,
                plan@,
            ),
            Err(ReplaceError::EmptyTarget) => target@.len() == 0,
        },
{
    let ghost nv = names.deep_view();
    if target.unicode_len() == 0 {
        return Err(ReplaceError::EmptyTarget);
    }
    let mut plan: Vec<RenamePair> = Vec::new();
    let mut i: usize = 0;
    while i < names.len()
        invariant
            i <= names.len(),
            nv == names.deep_view(),
            nv.len() == names@.len(),
            target@.len() > 0,
            forall|k: int|
                0 <= k < plan@.len() ==> ((#[trigger] plan@[k].new_name@) == spec_replace(
                    plan@[k].old_name@,
                    target@,
                    replacement@,
                ) && plan@[k].new_name@ != plan@[k].old_name@ && exists|j: int|
                    0 <= j < nv.len() && nv[j] == plan@[k].old_name@),
            forall|j: int|
                0 <= j < i && spec_replace(#[trigger] nv[j], target@, replacement@) != nv[j]
                    ==> exists|k: int| 0 <= k < plan@.len() && plan@[k].old_name@ == nv[j],
        decreases names.len() - i,
    {
        proof {
            assert(nv[i as int] == names@[i as int]@);
        }
        let new_name = replace_in_name(names[i].as_str(), target, replacement);
        let changed = !strings_equal(&new_name, &names[i]);
        let ghost plan0 = plan@;
        if changed {
            let ghost len0 = plan@.len();
            plan.push(RenamePair { old_name: clone_string(&names[i]), new_name });
            proof {
                assert(plan@[len0 as int].old_name@ == nv[i as int]);
                assert(plan@[len0 as int].new_name@ == spec_replace(
                    nv[i as int],
                    target@,
                    replacement@,
                ));
                assert(forall|k: int| 0 <= k < len0 ==> plan@[k] == plan0[k]);
            }
        }
        proof {
            assert forall|j: int|
                0 <= j < i + 1 && spec_replace(#[trigger] nv[j], target@, replacement@) != nv[j]
                implies exists|k: int|
                0 <= k < plan@.len() && plan@[k].old_name@ == nv[j] by {
                if j < i {
                    let k0 = choose|k0: int|
                        0 <= k0 < plan0.len() && plan0[k0].old_name@ == nv[j];
                    assert(plan@[k0].old_name@ == nv[j]);
                } else {
                    assert(plan@[plan@.len() - 1].old_name@ == nv[j]);
                }
            }
        }
        i = i + 1;
    }
    proof {
        assert(spec_replace_plan_ok(nv, target@, replacement@, plan@));
        assert(nv == names.deep_view());
    }
    Ok(plan)
}

/// Compares two strings character for character.
pub fn strings_equal(a: &String, b: &String) -> (r: bool)
    ensures
        r == (a@ == b@),
{
    let n = a.as_str().unicode_len();
    let m = b.as_str().unicode_len();
    if n != m {
        proof {
            assert(a@.len() != b@.len());
        }
        return false;
    }
    let mut i: usize = 0;
    while i < n
        invariant
            i <= n,
            n == a@.len(),
            n == b@.len(),
            forall|k: int| 0 <= k < i ==> a@[k] == b@[k],
        decreases n - i,
    {
        if a.as_str().get_char(i) != b.as_str().get_char(i) {
            return false;
        }
        i = i + 1;
    }
    proof {
        assert(a@ =~= b@);
    }
    true
}

} // verus!
