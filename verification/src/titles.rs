//! The episode-title injector: computing new file names for a directory's
//! tagged video files from an ordered title list, and reading back the title
//! text a tagged file name already carries.

use vstd::prelude::*;
use crate::pattern::{parse, strip_old_suffix, spec_is_tagged, spec_tag_of, EpisodeTag};
use crate::text::{clone_string, sanitized, sanitize_name};

verus! {

/// ASCII whitespace, as trimmed from the ends of a title.
pub open spec fn is_space(c: char) -> bool {
    c == ' ' || c == '\t' || c == '\n' || c == '\r' || c == '\u{b}' || c == '\u{c}'
}

/// A title that is empty or all whitespace, which stands for "no title".
pub open spec fn spec_is_blank(s: Seq<char>) -> bool {
    forall|k: int| 0 <= k < s.len() ==> is_space(#[trigger] s[k])
}

/// `s` without its leading whitespace.
pub open spec fn spec_trim_start(s: Seq<char>) -> Seq<char>
    decreases s.len(),
{
    if s.len() > 0 && is_space(s[0]) {
        spec_trim_start(s.drop_first())
    } else {
        s
    }
}

/// `s` without its trailing whitespace.
pub open spec fn spec_trim_end(s: Seq<char>) -> Seq<char>
    decreases s.len(),
{
    if s.len() > 0 && is_space(s.last()) {
        spec_trim_end(s.drop_last())
    } else {
        s
    }
}

/// `s` without leading or trailing whitespace.
pub open spec fn spec_trim(s: Seq<char>) -> Seq<char> {
    spec_trim_end(spec_trim_start(s))
}

/// `s` without every leading repetition of `"- "`.
pub open spec fn spec_strip_lead_dash(s: Seq<char>) -> Seq<char>
    decreases s.len(),
{
    if s.len() >= 2 && s[0] == '-' && s[1] == ' ' {
        spec_strip_lead_dash(s.skip(2))
    } else {
        s
    }
}

/// The part of `s` before its first `'.'`, or all of it if there is none.
pub open spec fn spec_before_dot(s: Seq<char>) -> Seq<char>
    decreases s.len(),
{
    if s.len() == 0 {
        s
    } else if s[0] == '.' {
        Seq::empty()
    } else {
        seq![s[0]] + spec_before_dot(s.drop_first())
    }
}

/// The name up to and including its first episode tag.
pub open spec fn spec_base_name(s: Seq<char>) -> Seq<char> {
    s.subrange(0, spec_tag_of(s).span_end())
}

/// The title text a tagged file name carries: what follows the tag, trimmed,
/// stripped of leading `"- "` repetitions, and cut at the first `'.'`.
pub open spec fn spec_title_text(s: Seq<char>) -> Seq<char> {
    spec_before_dot(spec_strip_lead_dash(spec_trim(s.skip(spec_tag_of(s).span_end()))))
}

/// The new name of one tagged file: its base name alone when no usable title
/// is given, else the base name, `" - "`, and the title.
pub open spec fn spec_titled_name(s: Seq<char>, title: Option<Seq<char>>) -> Seq<char> {
    match title {
        Some(t) => if spec_is_blank(t) {
            spec_base_name(s)
        } else {
            spec_base_name(s) + seq![' ', '-', ' '] + t
        },
        None => spec_base_name(s),
    }
}

/// The names the injector produces for `names`, consuming `titles` from
/// index `ti` on: each tagged name takes the next title (stripping the old
/// one when the title is blank or the list is exhausted); untagged names are
/// skipped and consume no title.
pub open spec fn spec_new_names(names: Seq<Seq<char>>, titles: Seq<Seq<char>>, ti: int) -> Seq<
    Seq<char>,
>
    decreases names.len(),
{
    if names.len() == 0 {
        Seq::empty()
    } else if spec_is_tagged(names[0]) {
        let title = if 0 <= ti < titles.len() {
            Some(titles[ti])
        } else {
            None
        };
        seq![spec_titled_name(names[0], title)] + spec_new_names(
            names.drop_first(),
            titles,
            ti + 1,
        )
    } else {
        spec_new_names(names.drop_first(), titles, ti)
    }
}

/// True when the string is empty or all whitespace.
pub fn is_blank(s: &str) -> (r: bool)
    ensures
        r == spec_is_blank(s@),
{
    let n = s.unicode_len();
    let mut i: usize = 0;
    while i < n
        invariant
            i <= n,
            n == s@.len(),
            forall|k: int| 0 <= k < i ==> is_space(#[trigger] s@[k]),
        decreases n - i,
    {
        let c = s.get_char(i);
        if !(c == ' ' || c == '\t' || c == '\n' || c == '\r' || c == '\u{b}' || c == '\u{c}') {
            return false;
        }
        i = i + 1;
    }
    true
}

/// Computes the injector's output for a directory's video file names and an
/// ordered title list: one new name per tagged file, in order.
pub fn generate_new_names(names: &Vec<String>, titles: &Vec<String>) -> (r: Vec<String>)
    ensures
        r.deep_view() == spec_new_names(names.deep_view(), titles.deep_view(), 0),
{
    let ghost nv = names.deep_view();
    let ghost tv = titles.deep_view();
    let mut out: Vec<String> = Vec::new();
    let mut i: usize = 0;
    let mut ti: usize = 0;
    proof {
        assert(nv.skip(0) =~= nv);
        assert(out.deep_view() =~= Seq::<Seq<char>>::empty());
        assert(out.deep_view() + spec_new_names(nv.skip(0), tv, 0) =~= spec_new_names(nv, tv, 0));
    }
    while i < names.len()
        invariant
            i <= names.len(),
            ti <= i,
            nv == names.deep_view(),
            tv == titles.deep_view(),
            nv.len() == names@.len(),
            tv.len() == titles@.len(),
            spec_new_names(nv, tv, 0) == out.deep_view() + spec_new_names(
                nv.skip(i as int),
                tv,
                ti as int,
            ),
        decreases names.len() - i,
    {
        proof {
            assert(nv[i as int] == names@[i as int]@);
            assert(nv.skip(i as int).drop_first() =~= nv.skip(i as int + 1));
            assert(nv.skip(i as int)[0] == nv[i as int]);
        }
        let ghost out0 = out.deep_view();
        match parse(names[i].as_str()) {
            Some(tag) => {
                let base = strip_old_suffix(names[i].as_str(), &tag);
                let new_name: String;
                if ti < titles.len() {
                    proof {
                        assert(tv[ti as int] == titles@[ti as int]@);
                    }
                    if is_blank(titles[ti].as_str()) {
                        new_name = base;
                    } else {
                        proof {
                            reveal_strlit(" - ");
                        }
                        let mut n2 = base;
                        n2.append(" - ");
                        n2.append(titles[ti].as_str());
                        proof {
                            assert(n2@ =~= spec_base_name(nv[i as int]) + seq![' ', '-', ' ']
                                + tv[ti as int]);
                        }
                        new_name = n2;
                    }
                } else {
                    new_name = base;
                }
                out.push(new_name);
                ti = ti + 1;
                proof {
                    assert(out.deep_view() =~= out0.push(
                        spec_titled_name(
                            nv[i as int],
                            if 0 <= ti - 1 < tv.len() {
                                Some(tv[ti - 1])
                            } else {
                                None
                            },
                        ),
                    ));
                    assert(out.deep_view() + spec_new_names(nv.skip(i as int + 1), tv, ti as int)
                        =~= out0 + spec_new_names(nv.skip(i as int), tv, ti as int - 1));
                }
            },
            None => {},
        }
        i = i + 1;
    }
    proof {
        assert(nv.skip(nv.len() as int) =~= Seq::<Seq<char>>::empty());
        assert(out.deep_view() + spec_new_names(nv.skip(nv.len() as int), tv, ti as int)
            =~= out.deep_view());
    }
    out
}

/// The final on-disk file name: the computed name sanitised for the file
/// system, with the original extension re-attached.
pub fn final_file_name(new_name: &str, extension: &str) -> (r: String)
    ensures
        r@ == sanitized(new_name@) + seq!['.'] + extension@,
{
    proof {
        reveal_strlit(".");
    }
    let mut r = sanitize_name(new_name);
    r.append(".");
    r.append(extension);
    proof {
        assert(r@ =~= sanitized(new_name@) + seq!['.'] + extension@);
    }
    r
}

/// Pairs each computed name with the matching file extension, as the preview
/// shows them; the shorter list bounds the output.
pub fn append_extensions(names: &Vec<String>, extensions: &Vec<String>) -> (r: Vec<String>)
    ensures
        r.deep_view().len() == if names.deep_view().len() <= extensions.deep_view().len() {
            names.deep_view().len()
        } else {
            extensions.deep_view().len()
        },
        forall|j: int|
            0 <= j < r.deep_view().len() ==> r.deep_view()[j] == #[trigger] names.deep_view()[j]
                + seq!['.'] + extensions.deep_view()[j],
{
    let ghost nv = names.deep_view();
    let ghost ev = extensions.deep_view();
    let n = if names.len() <= extensions.len() {
        names.len()
    } else {
        extensions.len()
    };
    let mut out: Vec<String> = Vec::new();
    let mut i: usize = 0;
    while i < n
        invariant
            i <= n,
            nv == names.deep_view(),
            ev == extensions.deep_view(),
            nv.len() == names@.len(),
            ev.len() == extensions@.len(),
            n <= names@.len(),
            n <= extensions@.len(),
            out.deep_view().len() == i as int,
            forall|j: int|
                0 <= j < i ==> out.deep_view()[j] == #[trigger] nv[j] + seq!['.'] + ev[j],
        decreases n - i,
    {
        proof {
            reveal_strlit(".");
            assert(nv[i as int] == names@[i as int]@);
            assert(ev[i as int] == extensions@[i as int]@);
        }
        let mut s = clone_string(&names[i]);
        s.append(".");
        s.append(extensions[i].as_str());
        proof {
            assert(s@ =~= nv[i as int] + seq!['.'] + ev[i as int]);
        }
        out.push(s);
        i = i + 1;
    }
    out
}

/// True when `c` is trimmed-away whitespace.
fn is_space_char(c: char) -> (r: bool)
    ensures
        r == is_space(c),
{
    c == ' ' || c == '\t' || c == '\n' || c == '\r' || c == '\u{b}' || c == '\u{c}'
}

/// Trims whitespace from both ends.
fn trim_str(s: &str) -> (r: String)
    ensures
        r@ == spec_trim(s@),
{
    let n = s.unicode_len();
    let mut lo: usize = 0;
    proof {
        assert(s@.skip(0) =~= s@);
    }
    while lo < n && is_space_char(s.get_char(lo))
        invariant
            lo <= n,
            n == s@.len(),
            spec_trim_start(s@) == spec_trim_start(s@.skip(lo as int)),
        decreases n - lo,
    {
        proof {
            assert(s@.skip(lo as int).drop_first() =~= s@.skip(lo as int + 1));
            assert(s@.skip(lo as int)[0] == s@[lo as int]);
        }
        lo = lo + 1;
    }
    proof {
        if lo < n {
            assert(s@.skip(lo as int)[0] == s@[lo as int]);
        }
        assert(spec_trim_start(s@) == s@.skip(lo as int));
        assert(s@.subrange(lo as int, n as int) =~= s@.skip(lo as int));
    }
    let mut hi: usize = n;
    while hi > lo && is_space_char(s.get_char(hi - 1))
        invariant
            lo <= hi <= n,
            n == s@.len(),
            spec_trim_start(s@) == s@.skip(lo as int),
            spec_trim_end(s@.skip(lo as int)) == spec_trim_end(
                s@.subrange(lo as int, hi as int),
            ),
        decreases hi,
    {
        proof {
            assert(s@.subrange(lo as int, hi as int).drop_last() =~= s@.subrange(
                lo as int,
                hi as int - 1,
            ));
            assert(s@.subrange(lo as int, hi as int).last() == s@[hi as int - 1]);
        }
        hi = hi - 1;
    }
    proof {
        if hi > lo {
            assert(s@.subrange(lo as int, hi as int).last() == s@[hi as int - 1]);
        }
        assert(spec_trim_end(s@.subrange(lo as int, hi as int)) == s@.subrange(
            lo as int,
            hi as int,
        ));
    }
    String::from_str(s.substring_char(lo, hi))
}

/// Removes every leading repetition of `"- "`.
fn strip_lead_dash(s: &str) -> (r: String)
    ensures
        r@ == spec_strip_lead_dash(s@),
{
    let n = s.unicode_len();
    let mut j: usize = 0;
    proof {
        assert(s@.skip(0) =~= s@);
    }
    while j < n && j + 1 < n && s.get_char(j) == '-' && s.get_char(j + 1) == ' '
        invariant
            j <= n,
            n == s@.len(),
            spec_strip_lead_dash(s@) == spec_strip_lead_dash(s@.skip(j as int)),
        decreases n - j,
    {
        proof {
            assert(s@.skip(j as int).skip(2) =~= s@.skip(j as int + 2));
            assert(s@.skip(j as int)[0] == s@[j as int]);
            assert(s@.skip(j as int)[1] == s@[j as int + 1]);
        }
        j = j + 2;
    }
    proof {
        if j < n {
            assert(s@.skip(j as int)[0] == s@[j as int]);
        }
        if j + 1 < n {
            assert(s@.skip(j as int)[1] == s@[j as int + 1]);
        }
        assert(spec_strip_lead_dash(s@.skip(j as int)) == s@.skip(j as int));
        assert(s@.subrange(j as int, n as int) =~= s@.skip(j as int));
    }
    String::from_str(s.substring_char(j, n))
}

/// The characters before the first `'.'` are the whole `spec_before_dot`.
proof fn lemma_before_dot(s: Seq<char>, d: int)
    requires
        0 <= d <= s.len(),
        forall|k: int| 0 <= k < d ==> s[k] != '.',
        d < s.len() ==> s[d] == '.',
    ensures
        spec_before_dot(s) == s.subrange(0, d),
    decreases s.len(),
{
    if s.len() == 0 {
        assert(s.subrange(0, 0) =~= s);
    } else if s[0] == '.' {
        assert(d == 0);
        assert(s.subrange(0, 0) =~= Seq::<char>::empty());
    } else {
        assert(d >= 1);
        assert(forall|k: int| 0 <= k < d - 1 ==> #[trigger] s.drop_first()[k] == s[k + 1]);
        lemma_before_dot(s.drop_first(), d - 1);
        assert(seq![s[0]] + s.drop_first().subrange(0, d - 1) =~= s.subrange(0, d));
    }
}

/// Cuts the string at its first `'.'`.
fn before_dot(s: &str) -> (r: String)
    ensures
        r@ == spec_before_dot(s@),
{
    let n = s.unicode_len();
    let mut d: usize = 0;
    while d < n && s.get_char(d) != '.'
        invariant
            d <= n,
            n == s@.len(),
            forall|k: int| 0 <= k < d ==> s@[k] != '.',
        decreases n - d,
    {
        d = d + 1;
    }
    proof {
        lemma_before_dot(s@, d as int);
    }
    String::from_str(s.substring_char(0, d))
}

/// Reads the title text a tagged file name carries after its tag; a name
/// without a tag yields nothing.
pub fn episode_title_of(name: &str) -> (r: Option<String>)
    ensures
        match r {
            Some(t) => spec_is_tagged(name@) && t@ == spec_title_text(name@),
            None => !spec_is_tagged(name@),
        },
{
    match parse(name) {
        Some(tag) => {
            let n = name.unicode_len();
            let after = name.substring_char(
                tag.start + 2 + tag.season_width + tag.episode_width,
                n,
            );
            proof {
                assert(name@.skip(spec_tag_of(name@).span_end()) =~= name@.subrange(
                    tag.span_end(),
                    n as int,
                ));
            }
            let trimmed = trim_str(after);
            let stripped = strip_lead_dash(trimmed.as_str());
            Some(before_dot(stripped.as_str()))
        },
        None => None,
    }
}

/// The titles carried by the tagged names, in order; untagged names are
/// skipped.
pub open spec fn spec_episode_titles(names: Seq<Seq<char>>) -> Seq<Seq<char>>
    decreases names.len(),
{
    if names.len() == 0 {
        Seq::empty()
    } else if spec_is_tagged(names[0]) {
        seq![spec_title_text(names[0])] + spec_episode_titles(names.drop_first())
    } else {
        spec_episode_titles(names.drop_first())
    }
}

/// Collects the title text of every tagged video file name, in order.
pub fn episode_names_in(names: &Vec<String>) -> (r: Vec<String>)
    ensures
        r.deep_view() == spec_episode_titles(names.deep_view()),
{
    let ghost nv = names.deep_view();
    let mut out: Vec<String> = Vec::new();
    let mut i: usize = 0;
    proof {
        assert(nv.skip(0) =~= nv);
        assert(out.deep_view() =~= Seq::<Seq<char>>::empty());
        assert(out.deep_view() + spec_episode_titles(nv.skip(0)) =~= spec_episode_titles(nv));
    }
    while i < names.len()
        invariant
            i <= names.len(),
            nv == names.deep_view(),
            nv.len() == names@.len(),
            spec_episode_titles(nv) == out.deep_view() + spec_episode_titles(nv.skip(i as int)),
        decreases names.len() - i,
    {
        proof {
            assert(nv[i as int] == names@[i as int]@);
            assert(nv.skip(i as int).drop_first() =~= nv.skip(i as int + 1));
            assert(nv.skip(i as int)[0] == nv[i as int]);
        }
        let ghost out0 = out.deep_view();
        match episode_title_of(names[i].as_str()) {
            Some(title) => {
                out.push(title);
                proof {
                    assert(out.deep_view() =~= out0.push(spec_title_text(nv[i as int])));
                    assert(out.deep_view() + spec_episode_titles(nv.skip(i as int + 1)) =~= out0
                        + spec_episode_titles(nv.skip(i as int)));
                }
            },
            None => {},
        }
        i = i + 1;
    }
    proof {
        assert(nv.skip(nv.len() as int) =~= Seq::<Seq<char>>::empty());
        assert(out.deep_view() + spec_episode_titles(nv.skip(nv.len() as int)) =~= out.deep_view());
    }
    out
}

} // verus!
