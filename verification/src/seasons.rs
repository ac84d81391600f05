//! Season grouping: turning a flat, ordered episode list from a metadata
//! source into `season -> episode-range -> titles` records, by fixed-size
//! chunking, by season-boundary detection, or by bucketing on the aired
//! year. Also the small helpers that pick a show out of a search result.

use vstd::prelude::*;
use vstd::assert_seqs_equal;
use crate::pattern::{all_digits, digits_val, spec_digits, digits_string, is_digit_char, is_digit, pow10, lemma_digits_val_bound, lemma_pow10_small};
use crate::text::{clone_string, string_starts_with, spec_starts_with};

verus! {

/// Episodes grouped under one season: the season number (or calendar year,
/// under year-bucketing), the 1-based episode range, and the titles in order.
pub struct SeasonedEpisodes {
    pub season: i32,
    pub start_episode: i32,
    pub end_episode: i32,
    pub titles: Vec<String>,
}

/// The mathematical shape of one season group.
pub struct SeasonRecord {
    pub season: int,
    pub start_episode: int,
    pub end_episode: int,
    pub titles: Seq<Seq<char>>,
}

impl View for SeasonedEpisodes {
    type V = SeasonRecord;

    open spec fn view(&self) -> SeasonRecord {
        SeasonRecord {
            season: self.season as int,
            start_episode: self.start_episode as int,
            end_episode: self.end_episode as int,
            titles: self.titles.deep_view(),
        }
    }
}

/// A show with its episodes already grouped by season.
pub struct ShowDetailsWithEpisodes {
    pub id: i32,
    pub name: String,
    pub premiered_year: Option<String>,
    pub episodes_by_season: Vec<SeasonedEpisodes>,
}

/// One episode as the Jikan source reports it.
pub struct JikanEpisode {
    pub title: Option<String>,
    pub aired: Option<String>,
}

/// The Jikan episode-list payload.
pub struct JikanEpisodeResponse {
    pub data: Vec<JikanEpisode>,
}

/// Jikan's aired-span record.
pub struct JikanAired {
    pub from: Option<String>,
    pub to: Option<String>,
}

/// Aired information of a search hit: the start date alone.
pub struct Aired {
    pub from: Option<String>,
}

/// One show in a Jikan search result.
pub struct JikanSearchAnime {
    pub mal_id: i32,
    pub title: String,
    pub aired: Aired,
}

/// The Jikan search payload.
pub struct JikanSearchResponse {
    pub data: Vec<JikanSearchAnime>,
}

/// Jikan's by-id show details.
pub struct JikanAnimeDetailsResponse {
    pub mal_id: i32,
    pub title: String,
    pub episodes: Option<i32>,
    pub aired: Option<JikanAired>,
    pub year: Option<i32>,
}

/// The wrapper Jikan puts around by-id show details.
pub struct JikanAnimeDetailsWrapper {
    pub data: JikanAnimeDetailsResponse,
}

/// One episode as the TVMaze source reports it.
pub struct TVMazeEpisode {
    pub season: i32,
    pub number: i32,
    pub name: Option<String>,
    pub airdate: Option<String>,
}

/// One show as TVMaze reports it.
pub struct TVMazeShow {
    pub id: i32,
    pub name: String,
    pub premiered: Option<String>,
}

/// One hit of a TVMaze show search.
pub struct TVMazeSearchResponse {
    pub show: TVMazeShow,
}

/// The stand-in title for an episode the source left unnamed.
pub open spec fn spec_unknown_title() -> Seq<char> {
    "Unknown Title"@
}

/// A Jikan episode's title, with the stand-in for a missing one.
pub open spec fn spec_jikan_title(e: JikanEpisode) -> Seq<char> {
    match e.title {
        Some(t) => t@,
        None => spec_unknown_title(),
    }
}

/// A TVMaze episode's title, with the stand-in for a missing one.
pub open spec fn spec_tvmaze_title(e: TVMazeEpisode) -> Seq<char> {
    match e.name {
        Some(t) => t@,
        None => spec_unknown_title(),
    }
}

/// The view sequence of a vector of season groups.
pub open spec fn spec_seasons_view(v: Seq<SeasonedEpisodes>) -> Seq<SeasonRecord> {
    Seq::new(v.len(), |i: int| v[i]@)
}

/// Returns the episode's title, or the stand-in when the source has none.
pub fn jikan_title_or_unknown(e: &JikanEpisode) -> (r: String)
    ensures
        r@ == spec_jikan_title(*e),
{
    match &e.title {
        Some(t) => clone_string(t),
        None => String::from_str("Unknown Title"),
    }
}

/// Returns the flat title list of a Jikan episode list, in order.
pub fn titles_with_default(episodes: &Vec<JikanEpisode>) -> (r: Vec<String>)
    ensures
        r.deep_view().len() == episodes@.len(),
        forall|j: int|
            0 <= j < episodes@.len() ==> r.deep_view()[j] == spec_jikan_title(
                #[trigger] episodes@[j],
            ),
{
    let mut out: Vec<String> = Vec::new();
    let mut i: usize = 0;
    while i < episodes.len()
        invariant
            i <= episodes@.len(),
            out.deep_view().len() == i as int,
            forall|j: int|
                0 <= j < i ==> out.deep_view()[j] == spec_jikan_title(#[trigger] episodes@[j]),
        decreases episodes@.len() - i,
    {
        out.push(jikan_title_or_unknown(&episodes[i]));
        i = i + 1;
    }
    out
}

/// One fixed chunk of twelve episodes: chunk `k` owns the 1-based range
/// `[12k+1, 12k+12]`, shortened at the end of the list, and season `k+1`.
pub open spec fn spec_chunk_ok(tv: Seq<Seq<char>>, k: int, sv: SeasonRecord) -> bool {
    &&& sv.season == k + 1
    &&& sv.start_episode == 12 * k + 1
    &&& sv.end_episode == if 12 * k + 12 <= tv.len() {
        12 * k + 12
    } else {
        tv.len() as int
    }
    &&& sv.titles == tv.subrange(12 * k, sv.end_episode)
}

/// Law: under fixed chunking each season's title count equals its episode
/// range.
pub proof fn lemma_chunk_title_counts(tv: Seq<Seq<char>>, k: int, sv: SeasonRecord)
    requires
        spec_chunk_ok(tv, k, sv),
        0 <= 12 * k <= tv.len(),
    ensures
        sv.titles.len() == sv.end_episode - sv.start_episode + 1,
{
    assert(sv.titles == tv.subrange(12 * k, sv.end_episode));
    assert(tv.subrange(12 * k, sv.end_episode).len() == sv.end_episode - 12 * k);
}

/// Groups a flat title list into seasons of twelve episodes each, used when
/// the source carries no season field: season `k` owns episodes
/// `[12(k-1)+1, 12k]`, except a possibly shorter final season. An empty list
/// yields one empty season, as the source walk does.
pub fn group_fixed_chunks(titles: &Vec<String>) -> (r: Vec<SeasonedEpisodes>)
    requires
        titles@.len() < 2000000000,
    ensures
        r@.len() == if titles.deep_view().len() == 0 {
            1int
        } else {
            (titles.deep_view().len() + 11) as int / 12
        },
        forall|k: int|
            0 <= k < r@.len() ==> spec_chunk_ok(titles.deep_view(), k, #[trigger] r@[k]@),
{
    let ghost tv = titles.deep_view();
    let n = titles.len();
    let mut out: Vec<SeasonedEpisodes> = Vec::new();
    if n == 0 {
        let se = SeasonedEpisodes {
            season: 1,
            start_episode: 1,
            end_episode: 0,
            titles: Vec::new(),
        };
        proof {
            assert(se@.titles =~= tv.subrange(0, 0));
            assert(spec_chunk_ok(tv, 0, se@));
        }
        out.push(se);
        return out;
    }
    let mut start: usize = 0;
    while start < n
        invariant
            n == titles@.len(),
            tv == titles.deep_view(),
            tv.len() == n as int,
            n < 2000000000,
            start <= n,
            start % 12 == 0 || start == n,
            out@.len() == (start + 11) / 12,
            forall|k: int|
                #![trigger out@[k]]
                0 <= k < out@.len() ==> spec_chunk_ok(tv, k, out@[k]@),
        decreases n - start,
    {
        let end = if start + 12 <= n {
            start + 12
        } else {
            n
        };
        let mut chunk: Vec<String> = Vec::new();
        let mut j: usize = start;
        while j < end
            invariant
                start <= j <= end <= n,
                n == titles@.len(),
                tv == titles.deep_view(),
                chunk.deep_view() =~= tv.subrange(start as int, j as int),
            decreases end - j,
        {
            proof {
                assert(tv[j as int] == titles@[j as int]@);
            }
            let ghost c0 = chunk.deep_view();
            let ghost q0 = chunk@;
            let cs = clone_string(&titles[j]);
            chunk.push(cs);
            proof {
                assert(c0.len() == q0.len());
                assert(c0.len() == j - start);
                assert(chunk@.len() == q0.len() + 1);
                assert(chunk.deep_view().len() == chunk@.len());
                assert_seqs_equal!(chunk.deep_view() == tv.subrange(start as int, j as int + 1), k => {
                    assert(chunk.deep_view()[k] == chunk@[k]@);
                    if k < j - start {
                        assert(chunk@[k] == q0[k]);
                        assert(c0[k] == q0[k]@);
                        assert(c0[k] == tv.subrange(start as int, j as int)[k]);
                    } else {
                        assert(chunk@[k] == cs);
                        assert(chunk@[k]@ == titles@[j as int]@);
                    }
                });
            }
            j = j + 1;
        }
        let ghost k = out@.len() as int;
        let se = SeasonedEpisodes {
            season: (start / 12 + 1) as i32,
            start_episode: (start + 1) as i32,
            end_episode: end as i32,
            titles: chunk,
        };
        proof {
            assert(start % 12 == 0);
            assert(k == start as int / 12);
            assert(spec_chunk_ok(tv, k, se@));
        }
        let ghost out0 = out@;
        out.push(se);
        proof {
            assert forall|k2: int| 0 <= k2 < out@.len() implies spec_chunk_ok(
                tv,
                k2,
                #[trigger] out@[k2]@,
            ) by {
                if k2 < out0.len() {
                    assert(out@[k2] == out0[k2]);
                } else {
                    assert(out@[k2] == se);
                }
            }
        }
        start = end;
    }
    out
}

/// Returns the episode's title, or the stand-in when the source has none.
pub fn tvmaze_title_or_unknown(e: &TVMazeEpisode) -> (r: String)
    ensures
        r@ == spec_tvmaze_title(*e),
{
    match &e.name {
        Some(t) => clone_string(t),
        None => String::from_str("Unknown Title"),
    }
}

/// The first index at or after `i` whose season differs from `s`, or the
/// list's length.
pub open spec fn spec_run_end(eps: Seq<TVMazeEpisode>, i: int, s: int) -> int
    decreases eps.len() - i,
    when 0 <= i <= eps.len()
{
    if i >= eps.len() {
        i
    } else if eps[i].season != s {
        i
    } else {
        spec_run_end(eps, i + 1, s)
    }
}

/// A run's end lies between its start and the list's length.
pub proof fn lemma_run_end_bounds(eps: Seq<TVMazeEpisode>, i: int, s: int)
    requires
        0 <= i <= eps.len(),
    ensures
        i <= spec_run_end(eps, i, s) <= eps.len(),
    decreases eps.len() - i,
{
    if i < eps.len() && eps[i].season == s {
        lemma_run_end_bounds(eps, i + 1, s);
    }
}

/// Inside a run every season number is `s`; at its end, if inside the list,
/// the season number differs.
pub proof fn lemma_run_end_props(eps: Seq<TVMazeEpisode>, i: int, s: int)
    requires
        0 <= i <= eps.len(),
    ensures
        forall|k: int| i <= k < spec_run_end(eps, i, s) ==> (#[trigger] eps[k]).season == s,
        spec_run_end(eps, i, s) < eps.len() ==> eps[spec_run_end(eps, i, s)].season != s,
    decreases eps.len() - i,
{
    if i < eps.len() && eps[i].season == s {
        lemma_run_end_props(eps, i + 1, s);
    }
}

/// A scan that saw one season throughout `[i, j)` and a boundary (or the
/// end) at `j` found the run's end.
proof fn lemma_run_end_value(eps: Seq<TVMazeEpisode>, i: int, j: int, s: int)
    requires
        0 <= i <= j <= eps.len(),
        forall|k: int| i <= k < j ==> (#[trigger] eps[k]).season == s,
        j < eps.len() ==> eps[j].season != s,
    ensures
        spec_run_end(eps, i, s) == j,
    decreases j - i,
{
    if i < j {
        lemma_run_end_value(eps, i + 1, j, s);
    }
}

/// The titles of episodes `[i, j)`, in order.
pub open spec fn spec_tvmaze_titles(eps: Seq<TVMazeEpisode>, i: int, j: int) -> Seq<Seq<char>> {
    Seq::new((j - i) as nat, |k: int| spec_tvmaze_title(eps[i + k]))
}

/// The season groups of episodes from index `i` on, closing a group wherever
/// the season number changes.
pub open spec fn spec_boundary_groups(eps: Seq<TVMazeEpisode>, i: int) -> Seq<SeasonRecord>
    decreases eps.len() - i,
    when 0 <= i <= eps.len()
    via spec_boundary_groups_dec
{
    if i >= eps.len() {
        Seq::empty()
    } else {
        let j = spec_run_end(eps, i + 1, eps[i].season as int);
        seq![
            SeasonRecord {
                season: eps[i].season as int,
                start_episode: i + 1,
                end_episode: j,
                titles: spec_tvmaze_titles(eps, i, j),
            },
        ] + spec_boundary_groups(eps, j)
    }
}

#[via_fn]
proof fn spec_boundary_groups_dec(eps: Seq<TVMazeEpisode>, i: int) {
    if 0 <= i && i < eps.len() {
        lemma_run_end_bounds(eps, i + 1, eps[i].season as int);
    }
}

/// Groups an episode list that carries explicit season numbers: a group
/// closes wherever the season number changes from the previous episode, so
/// each group is one maximal run, its range the run's 1-based indices.
pub fn group_by_season_boundary(episodes: &Vec<TVMazeEpisode>) -> (r: Vec<SeasonedEpisodes>)
    requires
        episodes@.len() < 2000000000,
    ensures
        spec_seasons_view(r@) == spec_boundary_groups(episodes@, 0),
{
    let ghost ev = episodes@;
    let n = episodes.len();
    let mut out: Vec<SeasonedEpisodes> = Vec::new();
    let mut i: usize = 0;
    proof {
        assert(spec_seasons_view(out@) =~= Seq::<SeasonRecord>::empty());
    }
    while i < n
        invariant
            i <= n,
            n == ev.len(),
            ev == episodes@,
            n < 2000000000,
            spec_boundary_groups(ev, 0) == spec_seasons_view(out@) + spec_boundary_groups(
                ev,
                i as int,
            ),
        decreases n - i,
    {
        let season = episodes[i].season;
        let mut j: usize = i + 1;
        while j < n && episodes[j].season == season
            invariant
                i + 1 <= j <= n,
                n == ev.len(),
                ev == episodes@,
                season == ev[i as int].season,
                forall|k: int| i + 1 <= k < j ==> (#[trigger] ev[k]).season == season as int,
            decreases n - j,
        {
            j = j + 1;
        }
        proof {
            lemma_run_end_value(ev, i as int + 1, j as int, season as int);
        }
        let mut chunk: Vec<String> = Vec::new();
        let mut m: usize = i;
        while m < j
            invariant
                i <= m <= j <= n,
                n == ev.len(),
                ev == episodes@,
                chunk.deep_view().len() == m - i,
                forall|k: int|
                    #![trigger chunk.deep_view()[k]]
                    0 <= k < m - i ==> chunk.deep_view()[k] == spec_tvmaze_title(ev[i + k]),
            decreases j - m,
        {
            let ghost c0 = chunk.deep_view();
            let t = tvmaze_title_or_unknown(&episodes[m]);
            chunk.push(t);
            proof {
                assert forall|k: int|
                    #![trigger chunk.deep_view()[k]]
                    0 <= k < m + 1 - i implies chunk.deep_view()[k] == spec_tvmaze_title(
                    ev[i + k],
                ) by {
                    assert(chunk.deep_view()[k] == chunk@[k]@);
                    if k < m - i {
                        assert(chunk@[k] == chunk@.drop_last()[k]);
                        assert(c0[k] == chunk@.drop_last()[k]@);
                    } else {
                        assert(chunk@[k] == chunk@.last());
                    }
                }
            }
            m = m + 1;
        }
        let se = SeasonedEpisodes {
            season,
            start_episode: (i + 1) as i32,
            end_episode: j as i32,
            titles: chunk,
        };
        proof {
            assert_seqs_equal!(se@.titles == spec_tvmaze_titles(ev, i as int, j as int), k => {
                assert(se@.titles[k] == spec_tvmaze_title(ev[i + k]));
            });
            assert(se@ == spec_boundary_groups(ev, i as int)[0]);
        }
        let ghost out0 = out@;
        out.push(se);
        proof {
            assert_seqs_equal!(spec_seasons_view(out@) == spec_seasons_view(out0) + seq![se@], k => {
                if k < out0.len() {
                    assert(out@[k] == out0[k]);
                } else {
                    assert(out@[k] == se);
                }
            });
            assert(spec_boundary_groups(ev, i as int) =~= seq![se@] + spec_boundary_groups(
                ev,
                j as int,
            ));
        }
        i = j;
    }
    proof {
        assert(spec_boundary_groups(ev, n as int) =~= Seq::<SeasonRecord>::empty());
        assert(spec_seasons_view(out@) + spec_boundary_groups(ev, n as int) =~= spec_seasons_view(
            out@,
        ));
    }
    out
}

/// Law: under boundary grouping every group's title count equals its episode
/// range, the ranges chain seamlessly from `i + 1` to the end of the list,
/// and neighbouring groups carry different season numbers.
pub proof fn lemma_boundary_groups_form(eps: Seq<TVMazeEpisode>, i: int)
    requires
        0 <= i <= eps.len(),
    ensures
        forall|k: int|
            0 <= k < spec_boundary_groups(eps, i).len() ==> {
                let g = #[trigger] spec_boundary_groups(eps, i)[k];
                g.titles.len() == g.end_episode - g.start_episode + 1 && g.start_episode
                    <= g.end_episode <= eps.len()
            },
        spec_boundary_groups(eps, i).len() > 0 ==> spec_boundary_groups(eps, i)[0].start_episode
            == i + 1,
        spec_boundary_groups(eps, i).len() > 0 ==> spec_boundary_groups(eps, i).last().end_episode
            == eps.len(),
        forall|k1: int, k2: int|
            #![trigger spec_boundary_groups(eps, i)[k1], spec_boundary_groups(eps, i)[k2]]
            0 <= k1 && k2 == k1 + 1 && k2 < spec_boundary_groups(eps, i).len()
                ==> spec_boundary_groups(eps, i)[k2].start_episode == spec_boundary_groups(
                eps,
                i,
            )[k1].end_episode + 1 && spec_boundary_groups(eps, i)[k2].season
                != spec_boundary_groups(eps, i)[k1].season,
    decreases eps.len() - i,
{
    let g = spec_boundary_groups(eps, i);
    if i < eps.len() {
        let s = eps[i].season as int;
        let j = spec_run_end(eps, i + 1, s);
        lemma_run_end_bounds(eps, i + 1, s);
        lemma_run_end_props(eps, i + 1, s);
        lemma_boundary_groups_form(eps, j);
        let rest = spec_boundary_groups(eps, j);
        let h = SeasonRecord {
            season: s,
            start_episode: i + 1,
            end_episode: j,
            titles: spec_tvmaze_titles(eps, i, j),
        };
        assert(g == seq![h] + rest);
        assert(g[0] == h);
        if rest.len() > 0 {
            // The next group starts at the boundary, where the season number
            // differs from this run's.
            assert(j < eps.len());
            assert(eps[j].season != s);
            assert(rest[0].season == eps[j].season as int);
            assert(g.last() == rest.last());
        } else {
            assert(j >= eps.len());
            assert(g.last() == h);
        }
        assert forall|k: int| 0 <= k < g.len() implies {
            let gr = #[trigger] g[k];
            gr.titles.len() == gr.end_episode - gr.start_episode + 1 && gr.start_episode
                <= gr.end_episode <= eps.len()
        } by {
            if k > 0 {
                assert(g[k] == rest[k - 1]);
            }
        }
        assert forall|k1: int, k2: int|
            #![trigger g[k1], g[k2]]
            0 <= k1 && k2 == k1 + 1 && k2 < g.len() implies g[k2].start_episode == g[
            k1
        ].end_episode + 1 && g[k2].season != g[k1].season by {
            if k1 == 0 {
                assert(g[1] == rest[0]);
            } else {
                assert(g[k1] == rest[k1 - 1]);
                assert(g[k2] == rest[k2 - 1]);
                assert(rest[k2 - 1].start_episode == rest[k1 - 1].end_episode + 1);
                assert(rest[k2 - 1].season != rest[k1 - 1].season);
            }
        }
    }
}

/// The characters of a date string before its first `'-'`.
pub open spec fn spec_before_dash(s: Seq<char>) -> Seq<char>
    decreases s.len(),
{
    if s.len() == 0 {
        s
    } else if s[0] == '-' {
        Seq::empty()
    } else {
        seq![s[0]] + spec_before_dash(s.drop_first())
    }
}

/// The characters before the first `'-'` are the whole `spec_before_dash`.
proof fn lemma_before_dash(s: Seq<char>, d: int)
    requires
        0 <= d <= s.len(),
        forall|k: int| 0 <= k < d ==> s[k] != '-',
        d < s.len() ==> s[d] == '-',
    ensures
        spec_before_dash(s) == s.subrange(0, d),
    decreases s.len(),
{
    if s.len() == 0 {
        assert(s.subrange(0, 0) =~= s);
    } else if s[0] == '-' {
        assert(d == 0);
        assert(s.subrange(0, 0) =~= Seq::<char>::empty());
    } else {
        assert(d >= 1);
        assert(forall|k: int| 0 <= k < d - 1 ==> #[trigger] s.drop_first()[k] == s[k + 1]);
        lemma_before_dash(s.drop_first(), d - 1);
        assert(seq![s[0]] + s.drop_first().subrange(0, d - 1) =~= s.subrange(0, d));
    }
}

/// The calendar year a date string names: its digit prefix before the first
/// `'-'`, read in base ten, or zero when that prefix is empty, too long, or
/// not all digits.
pub open spec fn spec_year_of_date(s: Seq<char>) -> int {
    if 1 <= spec_before_dash(s).len() <= 9 && all_digits(spec_before_dash(s)) {
        digits_val(spec_before_dash(s))
    } else {
        0
    }
}

/// The year bucket an episode falls in: the year of its aired date, or zero
/// when the date is missing or unreadable.
pub open spec fn spec_year_of(e: JikanEpisode) -> int {
    match e.aired {
        Some(d) => spec_year_of_date(d@),
        None => 0,
    }
}

/// Reads the year prefix of a date string.
pub fn year_of_date(s: &str) -> (y: i32)
    ensures
        y as int == spec_year_of_date(s@),
{
    let n = s.unicode_len();
    let mut d: usize = 0;
    while d < n && s.get_char(d) != '-'
        invariant
            d <= n,
            n == s@.len(),
            forall|k: int| 0 <= k < d ==> s@[k] != '-',
        decreases n - d,
    {
        d = d + 1;
    }
    proof {
        lemma_before_dash(s@, d as int);
    }
    if d == 0 || d > 9 {
        return 0;
    }
    let mut v: u32 = 0;
    let mut k: usize = 0;
    while k < d
        invariant
            k <= d <= n,
            1 <= d <= 9,
            n == s@.len(),
            spec_before_dash(s@) == s@.subrange(0, d as int),
            forall|m: int| 0 <= m < k ==> is_digit(#[trigger] s@[m]),
            v as int == digits_val(s@.subrange(0, k as int)),
            (v as int) < pow10(k as nat),
        decreases d - k,
    {
        let c = s.get_char(k);
        if !is_digit_char(c) {
            proof {
                assert(spec_before_dash(s@)[k as int] == s@[k as int]);
                assert(!is_digit(spec_before_dash(s@)[k as int]));
            }
            return 0;
        }
        proof {
            assert(s@.subrange(0, k + 1).drop_last() =~= s@.subrange(0, k as int));
            assert(s@.subrange(0, k + 1).last() == s@[k as int]);
            lemma_digits_val_bound(s@.subrange(0, k + 1));
            lemma_pow10_small();
            lemma_pow10_nine();
            assert(pow10(k as nat + 1) <= 1000000000) by {
                lemma_pow10_mono(k as nat + 1, 9);
            }
        }
        v = v * 10 + (c as u32 - '0' as u32);
        k = k + 1;
    }
    proof {
        assert(all_digits(spec_before_dash(s@)));
        assert(pow10(d as nat) <= 1000000000) by {
            lemma_pow10_nine();
            lemma_pow10_mono(d as nat, 9);
        }
    }
    v as i32
}

/// The largest power of ten a nine-digit year prefix can reach.
proof fn lemma_pow10_nine()
    ensures
        pow10(9) == 1000000000,
{
    reveal_with_fuel(pow10, 10);
}

/// Powers of ten grow with the exponent.
proof fn lemma_pow10_mono(a: nat, b: nat)
    requires
        a <= b,
    ensures
        pow10(a) <= pow10(b),
    decreases b,
{
    if a < b {
        lemma_pow10_mono(a, (b - 1) as nat);
        assert(pow10(b) == 10 * pow10((b - 1) as nat));
        lemma_pow10_small();
        assert(pow10(a) >= 1) by {
            lemma_pow10_pos(a);
        }
    }
}

/// Powers of ten are positive.
proof fn lemma_pow10_pos(a: nat)
    ensures
        pow10(a) >= 1,
    decreases a,
{
    if a > 0 {
        lemma_pow10_pos((a - 1) as nat);
    }
}

/// Reads the year bucket of one episode.
pub fn year_of_episode(e: &JikanEpisode) -> (y: i32)
    ensures
        y as int == spec_year_of(*e),
{
    match &e.aired {
        Some(d) => year_of_date(d.as_str()),
        None => 0,
    }
}

/// The titles of the episodes whose year is `y`, in encounter order.
pub open spec fn spec_titles_of_year(eps: Seq<JikanEpisode>, y: int) -> Seq<Seq<char>>
    decreases eps.len(),
{
    if eps.len() == 0 {
        Seq::empty()
    } else {
        spec_titles_of_year(eps.drop_last(), y) + if spec_year_of(eps.last()) == y {
            seq![spec_jikan_title(eps.last())]
        } else {
            Seq::empty()
        }
    }
}

/// Builds the season record of one year bucket: its titles in encounter
/// order, and the 1-based positions of the first and last episode aired in
/// that year.
fn bucket_for_year(episodes: &Vec<JikanEpisode>, y: i32) -> (se: SeasonedEpisodes)
    requires
        episodes@.len() < 2000000000,
        exists|j: int| 0 <= j < episodes@.len() && spec_year_of(#[trigger] episodes@[j]) == y as int,
    ensures
        se@.season == y as int,
        se@.titles == spec_titles_of_year(episodes@, y as int),
        1 <= se@.start_episode <= se@.end_episode <= episodes@.len(),
        spec_year_of(episodes@[se@.start_episode - 1]) == y as int,
        spec_year_of(episodes@[se@.end_episode - 1]) == y as int,
        forall|j: int|
            0 <= j < se@.start_episode - 1 ==> spec_year_of(#[trigger] episodes@[j]) != y as int,
        forall|j: int|
            se@.end_episode <= j < episodes@.len() ==> spec_year_of(#[trigger] episodes@[j])
                != y as int,
{
    let ghost ev = episodes@;
    let mut titles: Vec<String> = Vec::new();
    let mut first: usize = 0;
    let mut last: usize = 0;
    let mut seen = false;
    let mut i: usize = 0;
    proof {
        assert(ev.take(0) =~= Seq::<JikanEpisode>::empty());
    }
    while i < episodes.len()
        invariant
            i <= episodes@.len(),
            ev == episodes@,
            ev.len() < 2000000000,
            titles.deep_view() == spec_titles_of_year(ev.take(i as int), y as int),
            seen ==> first < i && last < i && first <= last,
            seen ==> spec_year_of(ev[first as int]) == y as int && spec_year_of(ev[last as int])
                == y as int,
            seen ==> forall|j: int|
                0 <= j < first ==> spec_year_of(#[trigger] ev[j]) != y as int,
            seen ==> forall|j: int|
                last < j < i ==> spec_year_of(#[trigger] ev[j]) != y as int,
            !seen ==> forall|j: int| 0 <= j < i ==> spec_year_of(#[trigger] ev[j]) != y as int,
        decreases episodes@.len() - i,
    {
        proof {
            assert(ev.take(i as int + 1).drop_last() =~= ev.take(i as int));
            assert(ev.take(i as int + 1).last() == ev[i as int]);
        }
        let ghost t0 = titles.deep_view();
        let ey = year_of_episode(&episodes[i]);
        if ey == y {
            titles.push(jikan_title_or_unknown(&episodes[i]));
            if !seen {
                first = i;
                seen = true;
            }
            last = i;
            proof {
                assert(titles.deep_view() =~= t0.push(spec_jikan_title(ev[i as int])));
                assert(titles.deep_view() =~= spec_titles_of_year(ev.take(i as int), y as int)
                    + seq![spec_jikan_title(ev[i as int])]);
            }
        } else {
            proof {
                assert(titles.deep_view() =~= spec_titles_of_year(ev.take(i as int), y as int)
                    + Seq::<Seq<char>>::empty());
            }
        }
        i = i + 1;
    }
    proof {
        assert(ev.take(ev.len() as int) =~= ev);
        assert(seen);
    }
    SeasonedEpisodes {
        season: y,
        start_episode: (first + 1) as i32,
        end_episode: (last + 1) as i32,
        titles,
    }
}

/// The year `y` occurs in the list `ys`.
pub open spec fn spec_has_year(ys: Seq<i32>, y: int) -> bool
    decreases ys.len(),
{
    ys.len() > 0 && (ys[0] == y || spec_has_year(ys.drop_first(), y))
}

/// A year at any position of the list occurs in it.
proof fn lemma_has_year_from_index(ys: Seq<i32>, p: int, y: int)
    requires
        0 <= p < ys.len(),
        ys[p] == y,
    ensures
        spec_has_year(ys, y),
    decreases p,
{
    if p > 0 {
        lemma_has_year_from_index(ys.drop_first(), p - 1, y);
    }
}

/// Inserting keeps every year that was already in the list.
proof fn lemma_has_year_insert(ys: Seq<i32>, pos: int, y: i32, y0: int)
    requires
        0 <= pos <= ys.len(),
        spec_has_year(ys, y0),
    ensures
        spec_has_year(ys.insert(pos, y), y0),
    decreases pos,
{
    ys.insert_ensures(pos, y);
    if pos == 0 {
        assert(ys.insert(0, y).drop_first() =~= ys);
    } else {
        assert(ys.insert(pos, y)[0] == ys[0]);
        if ys[0] != y0 {
            lemma_has_year_insert(ys.drop_first(), pos - 1, y, y0);
            assert(ys.insert(pos, y).drop_first() =~= ys.drop_first().insert(pos - 1, y));
        } else {
            lemma_has_year_from_index(ys.insert(pos, y), 0, y0);
        }
    }
}

/// The distinct year buckets of the episodes, ascending, paired with the
/// index of one episode aired in each.
fn distinct_years_sorted(episodes: &Vec<JikanEpisode>) -> (r: (Vec<i32>, Vec<usize>))
    ensures
        r.0@.len() == r.1@.len(),
        forall|a: int, b: int|
            #![trigger r.0@[a], r.0@[b]]
            0 <= a < b < r.0@.len() ==> r.0@[a] < r.0@[b],
        forall|k: int|
            0 <= k < r.1@.len() ==> (#[trigger] r.1@[k]) < episodes@.len() && spec_year_of(
                episodes@[r.1@[k] as int],
            ) == r.0@[k] as int,
        forall|j: int|
            0 <= j < episodes@.len() ==> spec_has_year(
                r.0@,
                spec_year_of(#[trigger] episodes@[j]),
            ),
{
    let ghost ev = episodes@;
    let mut ys: Vec<i32> = Vec::new();
    let mut wit: Vec<usize> = Vec::new();
    let mut i: usize = 0;
    while i < episodes.len()
        invariant
            i <= episodes@.len(),
            ev == episodes@,
            ys@.len() == wit@.len(),
            forall|a: int, b: int|
                #![trigger ys@[a], ys@[b]]
                0 <= a < b < ys@.len() ==> ys@[a] < ys@[b],
            forall|k: int|
                0 <= k < wit@.len() ==> (#[trigger] wit@[k]) < i && spec_year_of(
                    ev[wit@[k] as int],
                ) == ys@[k] as int,
            forall|j: int|
                0 <= j < i ==> spec_has_year(ys@, spec_year_of(#[trigger] ev[j])),
        decreases episodes@.len() - i,
    {
        let y = year_of_episode(&episodes[i]);
        let mut pos: usize = 0;
        while pos < ys.len() && ys[pos] < y
            invariant
                pos <= ys@.len(),
                forall|k: int| 0 <= k < pos ==> #[trigger] ys@[k] < y,
                forall|a: int, b: int|
                    #![trigger ys@[a], ys@[b]]
                    0 <= a < b < ys@.len() ==> ys@[a] < ys@[b],
            decreases ys@.len() - pos,
        {
            pos = pos + 1;
        }
        let already = pos < ys.len() && ys[pos] == y;
        if !already {
            let ghost ys0 = ys@;
            let ghost wit0 = wit@;
            let ghost pos_g = pos as int;
            ys.insert(pos, y);
            wit.insert(pos, i);
            proof {
                ys0.insert_ensures(pos_g, y);
                wit0.insert_ensures(pos_g, i);
                assert forall|a: int, b: int|
                    #![trigger ys@[a], ys@[b]]
                    0 <= a < b < ys@.len() implies ys@[a] < ys@[b] by {
                    if a < pos_g && b < pos_g {
                        assert(ys@[a] == ys0[a] && ys@[b] == ys0[b]);
                    } else if a == pos_g && b > pos_g {
                        assert(ys@[b] == ys0[b - 1]);
                        assert(ys0[pos_g] != y);
                    } else if a < pos_g && b == pos_g {
                        assert(ys@[a] == ys0[a]);
                    } else if a < pos_g && b > pos_g {
                        assert(ys@[a] == ys0[a] && ys@[b] == ys0[b - 1]);
                    } else if a > pos_g && b > pos_g {
                        assert(ys@[a] == ys0[a - 1] && ys@[b] == ys0[b - 1]);
                    }
                }
                assert forall|k: int| 0 <= k < wit@.len() implies (#[trigger] wit@[k]) < i + 1
                    && spec_year_of(ev[wit@[k] as int]) == ys@[k] as int by {
                    if k < pos_g {
                        assert(wit@[k] == wit0[k] && ys@[k] == ys0[k]);
                    } else if k == pos_g {
                        assert(wit@[k] == i && ys@[k] == y);
                    } else {
                        assert(wit@[k] == wit0[k - 1] && ys@[k] == ys0[k - 1]);
                    }
                }
                assert forall|j: int| 0 <= j < i + 1 implies spec_has_year(
                    ys@,
                    spec_year_of(#[trigger] ev[j]),
                ) by {
                    if j < i {
                        lemma_has_year_insert(ys0, pos_g, y, spec_year_of(ev[j]));
                    } else {
                        lemma_has_year_from_index(ys@, pos_g, y as int);
                    }
                }
            }
        } else {
            proof {
                assert forall|j: int| 0 <= j < i + 1 implies spec_has_year(
                    ys@,
                    spec_year_of(#[trigger] ev[j]),
                ) by {
                    if j == i {
                        lemma_has_year_from_index(ys@, pos as int, y as int);
                    }
                }
            }
        }
        i = i + 1;
    }
    (ys, wit)
}

/// The season key `y` occurs among the groups.
pub open spec fn spec_has_season(rv: Seq<SeasonRecord>, y: int) -> bool
    decreases rv.len(),
{
    rv.len() > 0 && (rv[0].season == y || spec_has_season(rv.drop_first(), y))
}

/// A year list's members all appear as season keys of a matching group list.
proof fn lemma_has_season_from_years(ys: Seq<i32>, rv: Seq<SeasonRecord>, y: int)
    requires
        ys.len() == rv.len(),
        forall|k: int| 0 <= k < ys.len() ==> (#[trigger] rv[k]).season == ys[k] as int,
        spec_has_year(ys, y),
    ensures
        spec_has_season(rv, y),
    decreases ys.len(),
{
    if ys.len() > 0 && ys[0] != y {
        assert(forall|k: int|
            0 <= k < ys.drop_first().len() ==> (#[trigger] rv.drop_first()[k]).season
                == ys.drop_first()[k] as int);
        lemma_has_season_from_years(ys.drop_first(), rv.drop_first(), y);
    }
}

/// Groups episodes by the calendar year of their aired date, used when the
/// source carries dates but no season numbers: one group per distinct year
/// (unreadable dates bucket under year zero), titles in encounter order, the
/// range spanning the first to the last episode of that year, and the groups
/// sorted ascending by year whatever the input order.
pub fn group_by_year(episodes: &Vec<JikanEpisode>) -> (r: Vec<SeasonedEpisodes>)
    requires
        episodes@.len() < 2000000000,
    ensures
        forall|a: int, b: int|
            #![trigger r@[a], r@[b]]
            0 <= a < b < r@.len() ==> r@[a]@.season < r@[b]@.season,
        forall|j: int|
            0 <= j < episodes@.len() ==> spec_has_season(
                spec_seasons_view(r@),
                spec_year_of(#[trigger] episodes@[j]),
            ),
        forall|k: int|
            0 <= k < r@.len() ==> {
                let sv = (#[trigger] r@[k])@;
                sv.titles == spec_titles_of_year(episodes@, sv.season) && 1 <= sv.start_episode
                    <= sv.end_episode <= episodes@.len() && spec_year_of(
                    episodes@[sv.start_episode - 1],
                ) == sv.season && spec_year_of(episodes@[sv.end_episode - 1]) == sv.season
            },
{
    let ghost ev = episodes@;
    let (years, witnesses) = distinct_years_sorted(episodes);
    let mut out: Vec<SeasonedEpisodes> = Vec::new();
    let mut k: usize = 0;
    while k < years.len()
        invariant
            k <= years@.len(),
            ev == episodes@,
            ev.len() < 2000000000,
            years@.len() == witnesses@.len(),
            forall|a: int, b: int|
                #![trigger years@[a], years@[b]]
                0 <= a < b < years@.len() ==> years@[a] < years@[b],
            forall|k2: int|
                0 <= k2 < witnesses@.len() ==> (#[trigger] witnesses@[k2]) < ev.len()
                    && spec_year_of(ev[witnesses@[k2] as int]) == years@[k2] as int,
            out@.len() == k as int,
            forall|k2: int| 0 <= k2 < k ==> (#[trigger] out@[k2])@.season == years@[k2] as int,
            forall|k2: int|
                0 <= k2 < k ==> {
                    let sv = (#[trigger] out@[k2])@;
                    sv.titles == spec_titles_of_year(ev, sv.season) && 1 <= sv.start_episode
                        <= sv.end_episode <= ev.len() && spec_year_of(ev[sv.start_episode - 1])
                        == sv.season && spec_year_of(ev[sv.end_episode - 1]) == sv.season
                },
        decreases years@.len() - k,
    {
        proof {
            assert(witnesses@[k as int] < ev.len() && spec_year_of(
                ev[witnesses@[k as int] as int],
            ) == years@[k as int] as int);
        }
        let se = bucket_for_year(episodes, years[k]);
        out.push(se);
        k = k + 1;
    }
    proof {
        assert forall|j: int| #![trigger ev[j]] 0 <= j < ev.len() implies spec_has_season(
            spec_seasons_view(out@),
            spec_year_of(ev[j]),
        ) by {
            assert(spec_has_year(years@, spec_year_of(ev[j])));
            assert(forall|k2: int|
                0 <= k2 < years@.len() ==> (#[trigger] spec_seasons_view(out@)[k2]).season
                    == years@[k2] as int);
            lemma_has_season_from_years(years@, spec_seasons_view(out@), spec_year_of(ev[j]));
        }
    }
    out
}

/// A show record matches a requested year when its premiere date starts with
/// that year's decimal digits.
pub open spec fn spec_year_digits(y: int) -> Seq<char> {
    if y < 0 {
        seq!['-'] + spec_digits(-y)
    } else {
        spec_digits(y)
    }
}

/// Renders a year as its decimal digits, with a leading minus sign when
/// negative.
pub fn year_digits_string(y: i32) -> (r: String)
    ensures
        r@ == spec_year_digits(y as int),
{
    if y < 0 {
        proof {
            reveal_strlit("-");
        }
        let mut r = String::from_str("-");
        let mag = (-(y as i64)) as u64;
        let ds = digits_string(mag);
        r.append(ds.as_str());
        proof {
            assert(r@ =~= seq!['-'] + spec_digits(-(y as int)));
        }
        r
    } else {
        digits_string(y as u64)
    }
}

/// The premiere date starts with the requested year.
pub open spec fn spec_premiered_in(premiered: Option<Seq<char>>, y: int) -> bool {
    match premiered {
        Some(p) => spec_starts_with(p, spec_year_digits(y)),
        None => false,
    }
}

/// The TVMaze show premiered in the requested year.
pub open spec fn spec_show_matches(s: TVMazeShow, y: int) -> bool {
    match s.premiered {
        Some(p) => spec_starts_with(p@, spec_year_digits(y)),
        None => false,
    }
}

/// The Jikan search hit's aired start date names the requested year.
pub open spec fn spec_anime_matches(a: JikanSearchAnime, y: int) -> bool {
    match a.aired.from {
        Some(p) => spec_starts_with(p@, spec_year_digits(y)),
        None => false,
    }
}

/// True when an optional premiere date names the requested year.
pub fn premiered_matches_year(premiered: &Option<String>, y: i32) -> (r: bool)
    ensures
        r == spec_premiered_in(
            match premiered {
                Some(p) => Some(p@),
                None => None,
            },
            y as int,
        ),
{
    match premiered {
        Some(p) => {
            let yd = year_digits_string(y);
            string_starts_with(p.as_str(), yd.as_str())
        },
        None => false,
    }
}

/// The selection contract over TVMaze search hits: with a year, the chosen
/// index is the first whose show premiered in it, and nothing is chosen only
/// when nothing matches; without a year, the first hit is chosen.
pub open spec fn spec_tvmaze_selected(
    results: Seq<TVMazeSearchResponse>,
    year: Option<i32>,
    r: Option<usize>,
) -> bool {
    match r {
        Some(ix) => ix < results.len() && match year {
            Some(y) => spec_show_matches(results[ix as int].show, y as int) && forall|j: int|
                0 <= j < ix ==> !spec_show_matches((#[trigger] results[j]).show, y as int),
            None => ix == 0,
        },
        None => match year {
            Some(y) => forall|j: int|
                0 <= j < results.len() ==> !spec_show_matches((#[trigger] results[j]).show, y as int),
            None => results.len() == 0,
        },
    }
}

/// Picks the TVMaze search hit to use: with a year, the first whose show
/// premiered in it; without one, the first hit. Yields the index.
pub fn select_tvmaze_show(results: &Vec<TVMazeSearchResponse>, year: Option<i32>) -> (r: Option<
    usize,
>)
    ensures
        spec_tvmaze_selected(results@, year, r),
{
    match year {
        Some(y) => {
            let mut i: usize = 0;
            while i < results.len()
                invariant
                    i <= results@.len(),
                    year == Some(y),
                    forall|j: int|
                        0 <= j < i ==> !spec_show_matches((#[trigger] results@[j]).show, y as int),
                decreases results@.len() - i,
            {
                if premiered_matches_year(&results[i].show.premiered, y) {
                    proof {
                        assert(spec_show_matches(results@[i as int].show, y as int));
                        assert(spec_tvmaze_selected(results@, year, Some(i)));
                    }
                    return Some(i);
                }
                i = i + 1;
            }
            proof {
                assert(spec_tvmaze_selected(results@, year, None::<usize>));
            }
            None
        },
        None => if results.len() > 0 {
            Some(0)
        } else {
            None
        },
    }
}

/// The selection contract over Jikan search hits, as for TVMaze, going by
/// each hit's aired start date.
pub open spec fn spec_jikan_selected(
    data: Seq<JikanSearchAnime>,
    year: Option<i32>,
    r: Option<usize>,
) -> bool {
    match r {
        Some(ix) => ix < data.len() && match year {
            Some(y) => spec_anime_matches(data[ix as int], y as int) && forall|j: int|
                0 <= j < ix ==> !spec_anime_matches(#[trigger] data[j], y as int),
            None => ix == 0,
        },
        None => match year {
            Some(y) => forall|j: int|
                0 <= j < data.len() ==> !spec_anime_matches(#[trigger] data[j], y as int),
            None => data.len() == 0,
        },
    }
}

/// Picks the Jikan search hit to use: with a year, the first whose aired
/// start date names it; without one, the first hit. Yields the index.
pub fn select_jikan_anime(data: &Vec<JikanSearchAnime>, year: Option<i32>) -> (r: Option<usize>)
    ensures
        spec_jikan_selected(data@, year, r),
{
    match year {
        Some(y) => {
            let mut i: usize = 0;
            while i < data.len()
                invariant
                    i <= data@.len(),
                    year == Some(y),
                    forall|j: int|
                        0 <= j < i ==> !spec_anime_matches(#[trigger] data@[j], y as int),
                decreases data@.len() - i,
            {
                if premiered_matches_year(&data[i].aired.from, y) {
                    proof {
                        assert(spec_anime_matches(data@[i as int], y as int));
                        assert(spec_jikan_selected(data@, year, Some(i)));
                    }
                    return Some(i);
                }
                i = i + 1;
            }
            proof {
                assert(spec_jikan_selected(data@, year, None::<usize>));
            }
            None
        },
        None => if data.len() > 0 {
            Some(0)
        } else {
            None
        },
    }
}

/// The premiere year of a show: the date's text before its first `'-'`.
pub fn premiered_year_of(date: &Option<String>) -> (r: Option<String>)
    ensures
        match date {
            Some(d) => r is Some && r->Some_0@ == spec_before_dash(d@),
            None => r is None,
        },
{
    match date {
        Some(d) => {
            let n = d.as_str().unicode_len();
            let mut k: usize = 0;
            while k < n && d.as_str().get_char(k) != '-'
                invariant
                    k <= n,
                    n == d@.len(),
                    forall|m: int| 0 <= m < k ==> d@[m] != '-',
                decreases n - k,
            {
                k = k + 1;
            }
            proof {
                lemma_before_dash(d@, k as int);
            }
            Some(String::from_str(d.as_str().substring_char(0, k)))
        },
        None => None,
    }
}

} // verus!
