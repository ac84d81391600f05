//! The episode renumberer: shifting every tagged file name's episode number
//! by a signed delta, with a guard against episode numbers below one and a
//! rename order that can never collide with a name still in use.

use vstd::prelude::*;
use crate::pattern::{
    parse, rewrite, spec_is_tagged, spec_tag_of, spec_rewritten, EpisodeTag, pow10,
    lemma_pow10_small, lemma_tag_value_bounds, lemma_tag_unique, lemma_rewritten_tag,
    lemma_digits_val_bound, all_digits,
};
use crate::text::clone_string;

verus! {

/// Why applying a rename batch failed, as surfaced to callers: the shell that
/// performs the renames maps an operating-system error to its message, and a
/// directory entry whose name is not readable text is refused.
#[derive(Debug)]
pub enum RenameError {
    IoError(String),
    InvalidFilename,
}

/// One planned rename: the name a file holds now and the name it should get.
pub struct RenamePair {
    pub old_name: String,
    pub new_name: String,
}

/// Why a renumbering request is refused before anything is renamed.
///
/// Episode numbers are treated as 1-based: a negative shift that would take
/// the smallest episode number below one is refused as a whole, so a batch
/// can never produce an episode numbered zero or less.
#[derive(Debug)]
pub enum RenumberError {
    /// No file name carries an episode tag.
    NoTaggedFiles,
    /// The shift would take the smallest episode number, given here, below one.
    EpisodeUnderflow { minimum: u32 },
}

/// The episode number of a tagged file name.
pub open spec fn spec_episode_of(s: Seq<char>) -> int {
    spec_tag_of(s).episode as int
}

/// A tagged name with its episode number shifted by `delta`, widths kept.
pub open spec fn spec_shifted(s: Seq<char>, delta: int) -> Seq<char> {
    spec_rewritten(s, spec_tag_of(s), spec_tag_of(s).season as int, spec_episode_of(s) + delta)
}

/// `m` is the smallest episode number among the tagged names of `nv`.
pub open spec fn spec_min_is(nv: Seq<Seq<char>>, m: int) -> bool {
    &&& exists|i: int|
        0 <= i < nv.len() && spec_is_tagged(#[trigger] nv[i]) && spec_episode_of(nv[i]) == m
    &&& forall|i: int|
        0 <= i < nv.len() && spec_is_tagged(#[trigger] nv[i]) ==> m <= spec_episode_of(nv[i])
}

/// No name of `nv` carries an episode tag.
pub open spec fn spec_none_tagged(nv: Seq<Seq<char>>) -> bool {
    forall|i: int| 0 <= i < nv.len() ==> !spec_is_tagged(#[trigger] nv[i])
}

/// How many names of `nv` carry an episode tag.
pub open spec fn spec_count_tagged(nv: Seq<Seq<char>>) -> int
    decreases nv.len(),
{
    if nv.len() == 0 {
        0
    } else {
        spec_count_tagged(nv.drop_last()) + if spec_is_tagged(nv.last()) {
            1int
        } else {
            0int
        }
    }
}

/// One plan entry is sound: its source carries a tag whose shifted number is
/// not negative, and its target is the source shifted by `delta`.
pub open spec fn plan_pair_ok(delta: int, pair: RenamePair) -> bool {
    &&& spec_is_tagged(pair.old_name@)
    &&& 0 <= spec_episode_of(pair.old_name@) + delta
    &&& pair.new_name@ == spec_shifted(pair.old_name@, delta)
}

/// The whole contract of a successful renumber plan: the request was not
/// refusable, every entry shifts one of the tagged names, the entries run
/// against the shift's direction by episode number, and every tagged name is
/// planned.
pub open spec fn spec_plan_ok(nv: Seq<Seq<char>>, delta: int, plan: Seq<RenamePair>) -> bool {
    &&& !spec_none_tagged(nv)
    &&& (delta < 0 ==> forall|m: int| spec_min_is(nv, m) ==> m + delta >= 1)
    &&& plan.len() == spec_count_tagged(nv)
    &&& (forall|k: int| 0 <= k < plan.len() ==> plan_pair_ok(delta, #[trigger] plan[k]))
    &&& (forall|k1: int, k2: int|
        #![trigger plan[k1], plan[k2]]
        0 <= k1 < k2 < plan.len() ==> if delta > 0 {
            spec_episode_of(plan[k2].old_name@) <= spec_episode_of(plan[k1].old_name@)
        } else {
            spec_episode_of(plan[k1].old_name@) <= spec_episode_of(plan[k2].old_name@)
        })
    &&& (forall|i: int|
        0 <= i < nv.len() && spec_is_tagged(#[trigger] nv[i]) ==> exists|k: int|
            0 <= k < plan.len() && plan[k].old_name@ == nv[i])
}

/// The first tag's fields fit their written widths.
pub proof fn lemma_tag_fits(s: Seq<char>, t: EpisodeTag)
    requires
        t.matches(s),
    ensures
        t.season < pow10(t.season_width as nat),
        t.episode < pow10(t.episode_width as nat),
{
    let sd = s.subrange(t.start + 1, t.start + 1 + t.season_width);
    let ed = s.subrange(t.start + 2 + t.season_width, t.span_end());
    assert(all_digits(sd));
    assert(all_digits(ed));
    lemma_digits_val_bound(sd);
    lemma_digits_val_bound(ed);
}

/// Finds the smallest episode number among the tagged file names.
pub fn find_min_episode_number(names: &Vec<String>) -> (r: Option<u32>)
    ensures
        match r {
            Some(m) => spec_min_is(names.deep_view(), m as int),
            None => spec_none_tagged(names.deep_view()),
        },
{
    let ghost nv = names.deep_view();
    let mut best: Option<u32> = None;
    let mut i: usize = 0;
    while i < names.len()
        invariant
            i <= names.len(),
            nv == names.deep_view(),
            nv.len() == names@.len(),
            match best {
                Some(m) => (exists|j: int|
                    0 <= j < i && spec_is_tagged(#[trigger] nv[j]) && spec_episode_of(nv[j])
                        == m as int) && (forall|j: int|
                    0 <= j < i && spec_is_tagged(#[trigger] nv[j]) ==> m as int <= spec_episode_of(
                        nv[j],
                    )),
                None => forall|j: int| 0 <= j < i ==> !spec_is_tagged(#[trigger] nv[j]),
            },
        decreases names.len() - i,
    {
        proof {
            assert(nv[i as int] == names@[i as int]@);
        }
        match parse(names[i].as_str()) {
            Some(tag) => {
                let e = tag.episode;
                best = match best {
                    Some(m) => if e < m {
                        Some(e)
                    } else {
                        Some(m)
                    },
                    None => Some(e),
                };
            },
            None => {},
        }
        i = i + 1;
    }
    best
}

/// Shifts the episode number in one file name by `delta`, keeping the digit
/// width; a name without a tag, or whose shifted number would be negative,
/// yields nothing.
pub fn shift_episode_in_name(name: &str, delta: i32) -> (r: Option<String>)
    ensures
        match r {
            Some(nn) => spec_is_tagged(name@) && 0 <= spec_episode_of(name@) + delta && nn@
                == spec_shifted(name@, delta as int),
            None => !spec_is_tagged(name@) || spec_episode_of(name@) + delta < 0,
        },
{
    match parse(name) {
        Some(tag) => {
            proof {
                lemma_tag_value_bounds(name@, tag);
            }
            let shifted: i64 = tag.episode as i64 + delta as i64;
            if shifted < 0 {
                None
            } else {
                Some(rewrite(name, &tag, tag.season, shifted as u32))
            }
        },
        None => None,
    }
}

/// Computes the names a shift would produce, one per input name in order:
/// tagged names are shifted, untagged names stay as they are. The shift is
/// refused whole when nothing is tagged or when the smallest episode number
/// would fall below one.
pub fn renumber_preview(names: &Vec<String>, delta: i32) -> (r: Result<Vec<String>, RenumberError>)
    ensures
        match r {
            Ok(out) => !spec_none_tagged(names.deep_view()) && (delta < 0 ==> forall|m: int|
                spec_min_is(names.deep_view(), m) ==> m + delta >= 1) && out.deep_view().len()
                == names.deep_view().len() && (forall|j: int|
                0 <= j < names.deep_view().len() ==> out.deep_view()[j] == (
                if spec_is_tagged(#[trigger] names.deep_view()[j]) {
                    spec_shifted(names.deep_view()[j], delta as int)
                } else {
                    names.deep_view()[j]
                })),
            Err(RenumberError::NoTaggedFiles) => spec_none_tagged(names.deep_view()),
            Err(RenumberError::EpisodeUnderflow { minimum }) => spec_min_is(
                names.deep_view(),
                minimum as int,
            ) && delta < 0 && minimum + delta < 1,
        },
{
    let ghost nv = names.deep_view();
    let minimum = match find_min_episode_number(names) {
        None => {
            return Err(RenumberError::NoTaggedFiles);
        },
        Some(m) => m,
    };
    if delta < 0 && (minimum as i64) + (delta as i64) < 1 {
        return Err(RenumberError::EpisodeUnderflow { minimum });
    }
    let mut out: Vec<String> = Vec::new();
    let mut i: usize = 0;
    while i < names.len()
        invariant
            i <= names.len(),
            nv == names.deep_view(),
            nv.len() == names@.len(),
            out.deep_view().len() == i as int,
            spec_min_is(nv, minimum as int),
            delta < 0 ==> minimum + delta >= 1,
            forall|j: int|
                0 <= j < i ==> out.deep_view()[j] == (if spec_is_tagged(#[trigger] nv[j]) {
                    spec_shifted(nv[j], delta as int)
                } else {
                    nv[j]
                }),
        decreases names.len() - i,
    {
        proof {
            assert(nv[i as int] == names@[i as int]@);
        }
        match parse(names[i].as_str()) {
            Some(tag) => {
                proof {
                    lemma_tag_value_bounds(names@[i as int]@, tag);
                }
                let shifted: i64 = tag.episode as i64 + delta as i64;
                out.push(rewrite(names[i].as_str(), &tag, tag.season, shifted as u32));
            },
            None => {
                out.push(clone_string(&names[i]));
            },
        }
        i = i + 1;
    }
    Ok(out)
}

/// A plan entry together with the episode number it was keyed on.
struct PlanItem {
    episode: u32,
    old_name: String,
    new_name: String,
}

/// An internal plan item is sound: a tagged source, keyed by its episode
/// number, with the shifted name as target.
spec fn item_ok(delta: int, it: PlanItem) -> bool {
    &&& spec_is_tagged(it.old_name@)
    &&& it.episode as int == spec_episode_of(it.old_name@)
    &&& 0 <= spec_episode_of(it.old_name@) + delta
    &&& it.new_name@ == spec_shifted(it.old_name@, delta)
}

/// Ascending order by episode key.
spec fn sorted_asc(items: Seq<PlanItem>) -> bool {
    forall|k1: int, k2: int|
        #![trigger items[k1], items[k2]]
        0 <= k1 < k2 < items.len() ==> items[k1].episode <= items[k2].episode
}

/// Inserts an item into an ascending plan at its sorted position, which is
/// returned.
fn insert_by_episode(items: &mut Vec<PlanItem>, item: PlanItem) -> (pos: usize)
    requires
        sorted_asc(old(items)@),
    ensures
        pos <= old(items)@.len(),
        final(items)@ == old(items)@.insert(pos as int, item),
        sorted_asc(final(items)@),
{
    let mut pos: usize = 0;
    while pos < items.len() && items[pos].episode <= item.episode
        invariant
            pos <= items@.len(),
            sorted_asc(items@),
            items@ == old(items)@,
            forall|k: int| 0 <= k < pos ==> #[trigger] items@[k].episode <= item.episode,
        decreases items@.len() - pos,
    {
        pos = pos + 1;
    }
    let ghost before = items@;
    let ghost pos_g = pos as int;
    items.insert(pos, item);
    proof {
        before.insert_ensures(pos_g, item);
        assert forall|k1: int, k2: int|
            #![trigger items@[k1], items@[k2]]
            0 <= k1 < k2 < items@.len() implies items@[k1].episode <= items@[k2].episode by {
            if k1 < pos_g && k2 < pos_g {
            } else if k1 == pos_g || k2 == pos_g {
                if k2 > pos_g {
                    assert(items@[k2] == before[k2 - 1]);
                    assert(before[pos_g] == items@[pos_g + 1]);
                }
            } else if k1 > pos_g && k2 > pos_g {
                assert(items@[k1] == before[k1 - 1]);
                assert(items@[k2] == before[k2 - 1]);
            } else {
                assert(items@[k2] == before[k2 - 1]);
            }
        }
    }
    pos
}

/// Collects every tagged name as a plan item, ordered ascending by episode.
#[verifier::rlimit(100)]
fn build_sorted_items(names: &Vec<String>, delta: i32) -> (items: Vec<PlanItem>)
    requires
        forall|i: int|
            0 <= i < names.deep_view().len() && spec_is_tagged(#[trigger] names.deep_view()[i])
                ==> 0 <= spec_episode_of(names.deep_view()[i]) + delta,
    ensures
        sorted_asc(items@),
        items@.len() == spec_count_tagged(names.deep_view()),
        forall|k: int|
            0 <= k < items@.len() ==> item_ok(delta as int, #[trigger] items@[k]),
        forall|j: int|
            0 <= j < names.deep_view().len() && spec_is_tagged(#[trigger] names.deep_view()[j])
                ==> exists|k: int| 0 <= k < items@.len() && items@[k].old_name@
                == names.deep_view()[j],
{
    let ghost nv = names.deep_view();
    let mut items: Vec<PlanItem> = Vec::new();
    let mut i: usize = 0;
    while i < names.len()
        invariant
            i <= names.len(),
            nv == names.deep_view(),
            nv.len() == names@.len(),
            forall|j: int|
                0 <= j < nv.len() && spec_is_tagged(#[trigger] nv[j]) ==> 0 <= spec_episode_of(
                    nv[j],
                ) + delta,
            sorted_asc(items@),
            items@.len() == spec_count_tagged(nv.take(i as int)),
            forall|k: int| 0 <= k < items@.len() ==> item_ok(delta as int, #[trigger] items@[k]),
            forall|j: int|
                0 <= j < i && spec_is_tagged(#[trigger] nv[j]) ==> exists|k: int|
                    0 <= k < items@.len() && items@[k].old_name@ == nv[j],
        decreases names.len() - i,
    {
        proof {
            assert(nv[i as int] == names@[i as int]@);
            assert(nv.take(i as int + 1).drop_last() =~= nv.take(i as int));
            assert(nv.take(i as int + 1).last() == nv[i as int]);
        }
        match parse(names[i].as_str()) {
            Some(tag) => {
                proof {
                    lemma_tag_value_bounds(names@[i as int]@, tag);
                }
                let shifted: i64 = tag.episode as i64 + delta as i64;
                let new_name = rewrite(names[i].as_str(), &tag, tag.season, shifted as u32);
                let item = PlanItem {
                    episode: tag.episode,
                    old_name: clone_string(&names[i]),
                    new_name,
                };
                let ghost items_before = items@;
                let pos = insert_by_episode(&mut items, item);
                proof {
                    let pos_g = pos as int;
                    items_before.insert_ensures(pos_g, item);
                    assert(items@[pos_g] == item);
                    assert forall|j: int|
                        0 <= j < i + 1 && spec_is_tagged(#[trigger] nv[j]) implies exists|k: int|
                        0 <= k < items@.len() && items@[k].old_name@ == nv[j] by {
                        if j < i {
                            let k0 = choose|k0: int|
                                0 <= k0 < items_before.len() && items_before[k0].old_name@ == nv[j];
                            if k0 < pos_g {
                                assert(items@[k0] == items_before[k0]);
                                assert(items@[k0].old_name@ == nv[j]);
                            } else {
                                assert(items@[k0 + 1] == items_before[k0]);
                                assert(items@[k0 + 1].old_name@ == nv[j]);
                            }
                        } else {
                            assert(items@[pos_g].old_name@ == nv[j]);
                        }
                    }
                    assert forall|k: int| 0 <= k < items@.len() implies item_ok(
                        delta as int,
                        #[trigger] items@[k],
                    ) by {
                        if k < pos_g {
                            assert(items@[k] == items_before[k]);
                        } else if k > pos_g {
                            assert(items@[k] == items_before[k - 1]);
                        }
                    }
                }
            },
            None => {},
        }
        i = i + 1;
    }
    proof {
        assert(nv.take(nv.len() as int) =~= nv);
    }
    items
}

/// Plans a whole renumbering run: every tagged file name, paired with its
/// shifted name, ordered so that applying the renames first to last can never
/// target a name another file still holds — descending by episode number for
/// a positive shift, ascending otherwise. Refused whole when nothing is
/// tagged or when the smallest episode number would fall below one.
#[verifier::rlimit(100)]
pub fn renumber_plan(names: &Vec<String>, delta: i32) -> (r: Result<Vec<RenamePair>, RenumberError>)
    ensures
        match r {
            Ok(plan) => spec_plan_ok(names.deep_view(), delta as int, plan@),
            Err(RenumberError::NoTaggedFiles) => spec_none_tagged(names.deep_view()),
            Err(RenumberError::EpisodeUnderflow { minimum }) => spec_min_is(
                names.deep_view(),
                minimum as int,
            ) && delta < 0 && minimum + delta < 1,
        },
{
    let ghost nv = names.deep_view();
    let minimum = match find_min_episode_number(names) {
        None => {
            return Err(RenumberError::NoTaggedFiles);
        },
        Some(m) => m,
    };
    if delta < 0 && (minimum as i64) + (delta as i64) < 1 {
        return Err(RenumberError::EpisodeUnderflow { minimum });
    }
    proof {
        assert forall|i: int|
            0 <= i < nv.len() && spec_is_tagged(#[trigger] nv[i]) implies 0 <= spec_episode_of(
            nv[i],
        ) + delta by {
            assert(minimum as int <= spec_episode_of(nv[i]));
        }
    }
    let items = build_sorted_items(names, delta);
    // Emit the plan in the order the renames must run: against the shift's
    // direction, so no target name is one a later rename still needs to read.
    let plan = if delta > 0 {
        emit_reversed(&items)
    } else {
        emit_forward(&items)
    };
    proof {
        lemma_emitted_plan_ok(nv, delta as int, items@, plan@, delta > 0);
        let iw = choose|i: int|
            0 <= i < nv.len() && spec_is_tagged(#[trigger] nv[i]) && spec_episode_of(nv[i])
                == minimum as int;
        assert(!spec_none_tagged(nv));
        assert forall|m: int| spec_min_is(nv, m) implies m + delta >= 1 || delta >= 0 by {
            lemma_min_unique(nv, m, minimum as int);
        }
    }
    Ok(plan)
}

/// Two minima over the same names are the same number.
pub proof fn lemma_min_unique(nv: Seq<Seq<char>>, m1: int, m2: int)
    requires
        spec_min_is(nv, m1),
        spec_min_is(nv, m2),
    ensures
        m1 == m2,
{
    let i1 = choose|i: int|
        0 <= i < nv.len() && spec_is_tagged(#[trigger] nv[i]) && spec_episode_of(nv[i]) == m1;
    let i2 = choose|i: int|
        0 <= i < nv.len() && spec_is_tagged(#[trigger] nv[i]) && spec_episode_of(nv[i]) == m2;
    assert(m1 <= spec_episode_of(nv[i2]));
    assert(m2 <= spec_episode_of(nv[i1]));
}

/// A plan emitted from sound, ascending items — forward for a non-positive
/// shift, reversed for a positive one — satisfies the planning contract.
proof fn lemma_emitted_plan_ok(
    nv: Seq<Seq<char>>,
    delta: int,
    iv: Seq<PlanItem>,
    pv: Seq<RenamePair>,
    reversed: bool,
)
    requires
        sorted_asc(iv),
        forall|k: int| 0 <= k < iv.len() ==> item_ok(delta, #[trigger] iv[k]),
        forall|j: int|
            0 <= j < nv.len() && spec_is_tagged(#[trigger] nv[j]) ==> exists|k: int|
                0 <= k < iv.len() && iv[k].old_name@ == nv[j],
        pv.len() == iv.len(),
        reversed ==> forall|j: int|
            #![trigger iv[j]]
            0 <= j < iv.len() ==> pv[iv.len() - 1 - j].old_name@ == iv[j].old_name@ && pv[iv.len()
                - 1 - j].new_name@ == iv[j].new_name@,
        !reversed ==> forall|j: int|
            0 <= j < pv.len() ==> #[trigger] pv[j].old_name@ == iv[j].old_name@ && pv[j].new_name@
                == iv[j].new_name@,
        reversed == (delta > 0),
    ensures
        forall|k: int| 0 <= k < pv.len() ==> plan_pair_ok(delta, #[trigger] pv[k]),
        forall|k1: int, k2: int|
            #![trigger pv[k1], pv[k2]]
            0 <= k1 < k2 < pv.len() ==> if delta > 0 {
                spec_episode_of(pv[k2].old_name@) <= spec_episode_of(pv[k1].old_name@)
            } else {
                spec_episode_of(pv[k1].old_name@) <= spec_episode_of(pv[k2].old_name@)
            },
        forall|i0: int|
            0 <= i0 < nv.len() && spec_is_tagged(#[trigger] nv[i0]) ==> exists|k: int|
                0 <= k < pv.len() && pv[k].old_name@ == nv[i0],
{
    let n = iv.len();
    assert forall|k: int| 0 <= k < pv.len() implies plan_pair_ok(delta, #[trigger] pv[k]) by {
        if reversed {
            assert(iv[n - 1 - k].old_name@ == pv[k].old_name@);
            assert(item_ok(delta, iv[n - 1 - k]));
        } else {
            assert(item_ok(delta, iv[k]));
        }
    }
    assert forall|k1: int, k2: int|
        #![trigger pv[k1], pv[k2]]
        0 <= k1 < k2 < pv.len() implies (if delta > 0 {
        spec_episode_of(pv[k2].old_name@) <= spec_episode_of(pv[k1].old_name@)
    } else {
        spec_episode_of(pv[k1].old_name@) <= spec_episode_of(pv[k2].old_name@)
    }) by {
        if reversed {
            assert(iv[n - 1 - k1].old_name@ == pv[k1].old_name@);
            assert(iv[n - 1 - k2].old_name@ == pv[k2].old_name@);
            assert(item_ok(delta, iv[n - 1 - k1]));
            assert(item_ok(delta, iv[n - 1 - k2]));
            assert(iv[n - 1 - k2].episode <= iv[n - 1 - k1].episode);
        } else {
            assert(item_ok(delta, iv[k1]));
            assert(item_ok(delta, iv[k2]));
            assert(iv[k1].episode <= iv[k2].episode);
        }
    }
    assert forall|i0: int|
        0 <= i0 < nv.len() && spec_is_tagged(#[trigger] nv[i0]) implies exists|k: int|
        0 <= k < pv.len() && pv[k].old_name@ == nv[i0] by {
        let k0 = choose|k0: int| 0 <= k0 < iv.len() && iv[k0].old_name@ == nv[i0];
        if reversed {
            assert(pv[n - 1 - k0].old_name@ == nv[i0]);
        } else {
            assert(pv[k0].old_name@ == nv[i0]);
        }
    }
}

/// Copies the plan items into rename pairs, first to last.
fn emit_forward(items: &Vec<PlanItem>) -> (plan: Vec<RenamePair>)
    ensures
        plan@.len() == items@.len(),
        forall|j: int|
            0 <= j < plan@.len() ==> #[trigger] plan@[j].old_name@ == items@[j].old_name@ && plan@[
                j
            ].new_name@ == items@[j].new_name@,
{
    let mut plan: Vec<RenamePair> = Vec::new();
    let mut k: usize = 0;
    while k < items.len()
        invariant
            k <= items@.len(),
            plan@.len() == k as int,
            forall|j: int|
                0 <= j < plan@.len() ==> #[trigger] plan@[j].old_name@ == items@[j].old_name@
                    && plan@[j].new_name@ == items@[j].new_name@,
        decreases items@.len() - k,
    {
        let pair = RenamePair {
            old_name: clone_string(&items[k].old_name),
            new_name: clone_string(&items[k].new_name),
        };
        plan.push(pair);
        proof {
            assert(plan@[k as int].old_name@ == items@[k as int].old_name@);
            assert(plan@[k as int].new_name@ == items@[k as int].new_name@);
        }
        k = k + 1;
    }
    plan
}

/// Copies the plan items into rename pairs, last to first.
fn emit_reversed(items: &Vec<PlanItem>) -> (plan: Vec<RenamePair>)
    ensures
        plan@.len() == items@.len(),
        forall|j: int|
            #![trigger items@[j]]
            0 <= j < items@.len() ==> plan@[items@.len() - 1 - j].old_name@ == items@[j].old_name@
                && plan@[items@.len() - 1 - j].new_name@ == items@[j].new_name@,
{
    let mut plan: Vec<RenamePair> = Vec::new();
    let mut k: usize = items.len();
    while k > 0
        invariant
            k <= items@.len(),
            plan@.len() == items@.len() - k,
            forall|j: int|
                #![trigger items@[j]]
                k <= j < items@.len() ==> plan@[items@.len() - 1 - j].old_name@
                    == items@[j].old_name@ && plan@[items@.len() - 1 - j].new_name@
                    == items@[j].new_name@,
        decreases k,
    {
        k = k - 1;
        let ghost filled = plan@.len();
        let pair = RenamePair {
            old_name: clone_string(&items[k].old_name),
            new_name: clone_string(&items[k].new_name),
        };
        plan.push(pair);
        proof {
            assert(plan@[filled as int].old_name@ == items@[k as int].old_name@);
            assert(plan@[filled as int].new_name@ == items@[k as int].new_name@);
        }
    }
    plan
}

/// Shifting a tagged name's episode number within its field's written width
/// yields a name whose first tag sits at the same place, with the same season
/// and widths and the shifted episode number.
pub proof fn lemma_shifted_tag(o: Seq<char>, delta: int)
    requires
        spec_is_tagged(o),
        0 <= spec_episode_of(o) + delta < pow10(spec_tag_of(o).episode_width as nat),
    ensures
        spec_is_tagged(spec_shifted(o, delta)),
        spec_shifted(o, delta).len() == o.len(),
        spec_tag_of(spec_shifted(o, delta)).start == spec_tag_of(o).start,
        spec_tag_of(spec_shifted(o, delta)).season == spec_tag_of(o).season,
        spec_tag_of(spec_shifted(o, delta)).season_width == spec_tag_of(o).season_width,
        spec_tag_of(spec_shifted(o, delta)).episode_width == spec_tag_of(o).episode_width,
        spec_episode_of(spec_shifted(o, delta)) == spec_episode_of(o) + delta,
{
    let t = spec_tag_of(o);
    assert(t.wf(o));
    lemma_tag_fits(o, t);
    lemma_pow10_small();
    assert(t.episode_width as int == 2 || t.episode_width as int == 3);
    assert(pow10(t.episode_width as nat) <= 1000);
    let ne = (t.episode as int + delta) as u32;
    assert(ne as int == t.episode as int + delta);
    lemma_rewritten_tag(o, t, t.season, ne);
    let t2 = EpisodeTag {
        season: t.season,
        episode: ne,
        season_width: t.season_width,
        episode_width: t.episode_width,
        start: t.start,
    };
    assert(t2.wf(spec_shifted(o, delta)));
    lemma_tag_unique(spec_shifted(o, delta), t2, spec_tag_of(spec_shifted(o, delta)));
}

/// Law: a renumber plan over tagged names with pairwise distinct episode
/// numbers, whose shifted numbers stay within each tag's written width and
/// which is ordered against the shift's direction, can be applied first to
/// last without a transient collision: no step's target name equals a later
/// step's source name, nor another step's target name.
pub proof fn lemma_renumber_plan_collision_free(plan: Seq<RenamePair>, delta: int)
    requires
        forall|k: int| 0 <= k < plan.len() ==> spec_is_tagged(#[trigger] plan[k].old_name@),
        forall|k: int|
            0 <= k < plan.len() ==> (#[trigger] plan[k].new_name@) == spec_shifted(
                plan[k].old_name@,
                delta,
            ),
        forall|k: int|
            0 <= k < plan.len() ==> 0 <= spec_episode_of(#[trigger] plan[k].old_name@) + delta
                < pow10(spec_tag_of(plan[k].old_name@).episode_width as nat),
        forall|k1: int, k2: int|
            #![trigger plan[k1], plan[k2]]
            0 <= k1 < k2 < plan.len() ==> spec_episode_of(plan[k1].old_name@) != spec_episode_of(
                plan[k2].old_name@,
            ),
        forall|k1: int, k2: int|
            #![trigger plan[k1], plan[k2]]
            0 <= k1 < k2 < plan.len() ==> if delta > 0 {
                spec_episode_of(plan[k2].old_name@) <= spec_episode_of(plan[k1].old_name@)
            } else {
                spec_episode_of(plan[k1].old_name@) <= spec_episode_of(plan[k2].old_name@)
            },
    ensures
        forall|k1: int, k2: int|
            #![trigger plan[k1], plan[k2]]
            0 <= k1 < k2 < plan.len() ==> plan[k1].new_name@ != plan[k2].old_name@,
        forall|k1: int, k2: int|
            #![trigger plan[k1], plan[k2]]
            0 <= k1 < k2 < plan.len() ==> plan[k1].new_name@ != plan[k2].new_name@,
{
    assert forall|k1: int, k2: int|
        #![trigger plan[k1], plan[k2]]
        0 <= k1 < k2 < plan.len() implies plan[k1].new_name@ != plan[k2].old_name@ && plan[
        k1
    ].new_name@ != plan[k2].new_name@ by {
        let o1 = plan[k1].old_name@;
        let o2 = plan[k2].old_name@;
        let e1 = spec_episode_of(o1);
        let e2 = spec_episode_of(o2);
        lemma_shifted_tag(o1, delta);
        lemma_shifted_tag(o2, delta);
        if plan[k1].new_name@ == plan[k2].old_name@ {
            // One name, two first tags: its episode number would have to be
            // both the shifted one and the unshifted one.
            assert(spec_episode_of(plan[k1].new_name@) == e1 + delta);
            assert(e1 + delta == e2);
            if delta > 0 {
                assert(e2 < e1);
            } else {
                assert(e1 < e2);
                assert(e1 + delta <= e1);
            }
            assert(false);
        }
        if plan[k1].new_name@ == plan[k2].new_name@ {
            assert(e1 + delta == e2 + delta);
            assert(false);
        }
    }
}

} // verus!
