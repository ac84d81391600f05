//! The filename-pattern engine: finding, decoding and rewriting the first
//! `S<season>E<episode>` tag in a file name, where both fields are written
//! with two or three decimal digits.

use vstd::prelude::*;

verus! {

/// An ASCII decimal digit.
pub open spec fn is_digit(c: char) -> bool {
    '0' <= c && c <= '9'
}

/// Numeric value of one decimal digit.
pub open spec fn digit_val(c: char) -> int {
    c as int - '0' as int
}

/// Every character of `s` is a decimal digit.
pub open spec fn all_digits(s: Seq<char>) -> bool {
    forall|k: int| 0 <= k < s.len() ==> is_digit(#[trigger] s[k])
}

/// Value of a digit string read in base ten.
pub open spec fn digits_val(s: Seq<char>) -> int
    decreases s.len(),
{
    if s.len() == 0 {
        0
    } else {
        digits_val(s.drop_last()) * 10 + digit_val(s.last())
    }
}

/// Ten to the power `n`.
pub open spec fn pow10(n: nat) -> int
    decreases n,
{
    if n == 0 {
        1
    } else {
        10 * pow10((n - 1) as nat)
    }
}

/// A tag occurrence starting at position `i` of `s`, with season and episode
/// fields of `ws` and `we` digits, as the scanning engine would take it:
/// the season field is as long as the digit run allows (a two-digit season is
/// followed by the literal `E`, which is not a digit, so the two widths never
/// both apply), and the episode field takes a third digit whenever one is
/// present, so a two-digit episode is never followed by another digit.
pub open spec fn tag_match_at(s: Seq<char>, i: int, ws: int, we: int) -> bool {
    &&& (ws == 2 || ws == 3)
    &&& (we == 2 || we == 3)
    &&& 0 <= i
    &&& i + 2 + ws + we <= s.len()
    &&& s[i] == 'S'
    &&& (forall|k: int| i + 1 <= k < i + 1 + ws ==> is_digit(#[trigger] s[k]))
    &&& s[i + 1 + ws] == 'E'
    &&& (forall|k: int| i + 2 + ws <= k < i + 2 + ws + we ==> is_digit(#[trigger] s[k]))
    &&& (we == 2 ==> (i + 2 + ws + we == s.len() || !is_digit(s[i + 2 + ws + we])))
}

/// Some tag occurrence starts at position `i` of `s`.
pub open spec fn has_tag_at(s: Seq<char>, i: int) -> bool {
    exists|ws: int, we: int| tag_match_at(s, i, ws, we)
}

/// The decoded first episode tag of a file name: the season and episode
/// values, the digit width each was written with, and where the tag starts.
#[derive(Clone, Copy, PartialEq, Eq, Structural, Debug)]
pub struct EpisodeTag {
    pub season: u32,
    pub episode: u32,
    pub season_width: usize,
    pub episode_width: usize,
    pub start: usize,
}

impl EpisodeTag {
    /// Index one past the last character of the tag.
    pub open spec fn span_end(self) -> int {
        self.start + 2 + self.season_width + self.episode_width
    }

    /// The tag correctly describes an occurrence at `self.start` in `s`.
    pub open spec fn matches(self, s: Seq<char>) -> bool {
        &&& tag_match_at(s, self.start as int, self.season_width as int, self.episode_width as int)
        &&& self.season == digits_val(
            s.subrange(self.start + 1, self.start + 1 + self.season_width),
        )
        &&& self.episode == digits_val(s.subrange(self.start + 2 + self.season_width, self.span_end()))
    }

    /// The tag is the first one in `s`: it matches, and no tag occurrence
    /// starts anywhere before it.
    pub open spec fn wf(self, s: Seq<char>) -> bool {
        &&& self.matches(s)
        &&& forall|q: int| 0 <= q < self.start ==> !has_tag_at(s, q)
    }
}

/// The file name holds an episode tag.
pub open spec fn spec_is_tagged(s: Seq<char>) -> bool {
    exists|t: EpisodeTag| #[trigger] t.wf(s)
}

/// The first episode tag of `s`; meaningful only when `spec_is_tagged(s)`.
pub open spec fn spec_tag_of(s: Seq<char>) -> EpisodeTag {
    choose|t: EpisodeTag| #[trigger] t.wf(s)
}

/// The small powers of ten the digit fields can reach.
pub proof fn lemma_pow10_small()
    ensures
        pow10(0) == 1,
        pow10(1) == 10,
        pow10(2) == 100,
        pow10(3) == 1000,
{
    reveal_with_fuel(pow10, 4);
}

/// A digit string's value is bounded by ten to its length.
pub proof fn lemma_digits_val_bound(s: Seq<char>)
    requires
        all_digits(s),
    ensures
        0 <= digits_val(s) < pow10(s.len()),
    decreases s.len(),
{
    if s.len() > 0 {
        assert(all_digits(s.drop_last())) by {
            assert(forall|k: int|
                0 <= k < s.len() - 1 ==> #[trigger] s.drop_last()[k] == s[k]);
        }
        lemma_digits_val_bound(s.drop_last());
    }
}

/// At one position, only one pair of field widths can match.
pub proof fn lemma_widths_unique(s: Seq<char>, i: int, ws1: int, we1: int, ws2: int, we2: int)
    requires
        tag_match_at(s, i, ws1, we1),
        tag_match_at(s, i, ws2, we2),
    ensures
        ws1 == ws2,
        we1 == we2,
{
    if ws1 != ws2 {
        // One width is 2 and the other 3; the `E` of the narrower one sits on
        // a digit of the wider one.
        let wide = if ws1 == 3 { ws1 } else { ws2 };
        let narrow = if ws1 == 3 { ws2 } else { ws1 };
        assert(is_digit(s[i + 1 + narrow]));
        assert(s[i + 1 + narrow] == 'E');
        assert(false);
    }
    if we1 != we2 {
        let wide = if we1 == 3 { we1 } else { we2 };
        let narrow = if we1 == 3 { we2 } else { we1 };
        // The narrow match requires the position after its field to hold no
        // digit, yet the wide match has a digit there.
        assert(is_digit(s[i + 2 + ws1 + narrow]));
        assert(false);
    }
}

/// A file name has at most one first tag.
pub proof fn lemma_tag_unique(s: Seq<char>, t1: EpisodeTag, t2: EpisodeTag)
    requires
        t1.wf(s),
        t2.wf(s),
    ensures
        t1 == t2,
{
    assert(has_tag_at(s, t1.start as int));
    assert(has_tag_at(s, t2.start as int));
    assert(t1.start == t2.start);
    lemma_widths_unique(
        s,
        t1.start as int,
        t1.season_width as int,
        t1.episode_width as int,
        t2.season_width as int,
        t2.episode_width as int,
    );
}

/// Season and episode values decoded from two or three digits stay below 1000.
pub proof fn lemma_tag_value_bounds(s: Seq<char>, t: EpisodeTag)
    requires
        t.matches(s),
    ensures
        t.season < 1000,
        t.episode < 1000,
{
    let sd = s.subrange(t.start + 1, t.start + 1 + t.season_width);
    let ed = s.subrange(t.start + 2 + t.season_width, t.span_end());
    assert(all_digits(sd));
    assert(all_digits(ed));
    lemma_digits_val_bound(sd);
    lemma_digits_val_bound(ed);
    lemma_pow10_small();
}

/// True when `c` is an ASCII decimal digit.
pub fn is_digit_char(c: char) -> (r: bool)
    ensures
        r == is_digit(c),
{
    '0' <= c && c <= '9'
}

/// Decodes the digit run `name[from..to]` as a base-ten number.
fn decode_digits(name: &str, from: usize, to: usize) -> (v: u32)
    requires
        from <= to <= name@.len(),
        to - from <= 3,
        forall|k: int| from <= k < to ==> is_digit(#[trigger] name@[k]),
    ensures
        v == digits_val(name@.subrange(from as int, to as int)),
{
    proof {
        lemma_digits_val_bound(name@.subrange(from as int, to as int));
    }
    let mut v: u32 = 0;
    let mut j: usize = from;
    while j < to
        invariant
            from <= j <= to <= name@.len(),
            to - from <= 3,
            forall|k: int| from <= k < to ==> is_digit(#[trigger] name@[k]),
            v == digits_val(name@.subrange(from as int, j as int)),
            0 <= v < pow10((j - from) as nat),
        decreases to - j,
    {
        let c = name.get_char(j);
        proof {
            assert(name@.subrange(from as int, j + 1).drop_last() =~= name@.subrange(
                from as int,
                j as int,
            ));
            assert(name@.subrange(from as int, j + 1).last() == name@[j as int]);
            lemma_digits_val_bound(name@.subrange(from as int, j + 1));
            lemma_pow10_small();
        }
        v = v * 10 + (c as u32 - '0' as u32);
        j = j + 1;
    }
    assert(name@.subrange(from as int, j as int) =~= name@.subrange(from as int, to as int));
    v
}

/// Looks for a tag occurrence starting exactly at position `i`.
fn try_tag_at(name: &str, i: usize, n: usize) -> (r: Option<EpisodeTag>)
    requires
        n == name@.len(),
        i < n,
    ensures
        match r {
            Some(tag) => tag.matches(name@) && tag.start == i,
            None => !has_tag_at(name@, i as int),
        },
{
    let s = name;
    if s.get_char(i) != 'S' {
        return None;
    }
    // Any match needs at least `S`, two digits, `E`, two digits.
    if n - i < 6 {
        return None;
    }
    if !is_digit_char(s.get_char(i + 1)) || !is_digit_char(s.get_char(i + 2)) {
        return None;
    }
    // Greedy season width: a third digit extends the field; otherwise the
    // next character must be the `E`.
    let ws: usize = if is_digit_char(s.get_char(i + 3)) {
        3
    } else {
        2
    };
    proof {
        assert forall|w: int, e: int| tag_match_at(name@, i as int, w, e) implies w == ws by {
            if w != ws {
                assert(is_digit(name@[i + 3]) ==> name@[i + 1 + 2] != 'E');
            }
        }
    }
    if 3 + ws >= n - i {
        // Too little room for `E` plus two digits after a season of width ws.
        return None;
    }
    if s.get_char(i + 1 + ws) != 'E' {
        return None;
    }
    if !is_digit_char(s.get_char(i + 2 + ws)) || !is_digit_char(s.get_char(i + 3 + ws)) {
        return None;
    }
    // Greedy episode width.
    let we: usize = if 4 + ws < n - i && is_digit_char(s.get_char(i + 4 + ws)) {
        3
    } else {
        2
    };
    let season = decode_digits(name, i + 1, i + 1 + ws);
    let episode = decode_digits(name, i + 2 + ws, i + 2 + ws + we);
    let tag = EpisodeTag { season, episode, season_width: ws, episode_width: we, start: i };
    proof {
        assert(tag_match_at(name@, i as int, ws as int, we as int));
    }
    Some(tag)
}

/// Finds the first `S<season>E<episode>` tag of a file name, if any, and
/// decodes its fields, preserving each field's written digit width.
pub fn parse(name: &str) -> (r: Option<EpisodeTag>)
    ensures
        match r {
            Some(tag) => tag.wf(name@) && spec_is_tagged(name@) && tag == spec_tag_of(name@),
            None => !spec_is_tagged(name@),
        },
{
    let n = name.unicode_len();
    let mut i: usize = 0;
    while i < n
        invariant
            i <= n,
            n == name@.len(),
            forall|q: int| 0 <= q < i ==> !has_tag_at(name@, q),
        decreases n - i,
    {
        match try_tag_at(name, i, n) {
            Some(tag) => {
                proof {
                    assert(tag.wf(name@));
                    lemma_tag_unique(name@, tag, spec_tag_of(name@));
                }
                return Some(tag);
            },
            None => {},
        }
        i = i + 1;
    }
    proof {
        if spec_is_tagged(name@) {
            let t = spec_tag_of(name@);
            assert(t.wf(name@));
            assert(has_tag_at(name@, t.start as int));
        }
    }
    None
}

/// The digit character for a value below ten.
pub open spec fn digit_char(d: int) -> char {
    if d == 0 {
        '0'
    } else if d == 1 {
        '1'
    } else if d == 2 {
        '2'
    } else if d == 3 {
        '3'
    } else if d == 4 {
        '4'
    } else if d == 5 {
        '5'
    } else if d == 6 {
        '6'
    } else if d == 7 {
        '7'
    } else if d == 8 {
        '8'
    } else {
        '9'
    }
}

/// The base-ten digit string of a non-negative number, most significant first.
pub open spec fn spec_digits(v: int) -> Seq<char>
    decreases v,
{
    if v < 10 {
        seq![digit_char(v)]
    } else {
        spec_digits(v / 10).push(digit_char(v % 10))
    }
}

/// A run of `n` zero characters.
pub open spec fn zeros(n: nat) -> Seq<char> {
    Seq::new(n, |i: int| '0')
}

/// A number rendered in base ten, left-padded with zeros to at least `w`
/// characters; numbers too wide for `w` keep all their digits.
pub open spec fn spec_render(v: int, w: int) -> Seq<char> {
    if spec_digits(v).len() >= w {
        spec_digits(v)
    } else {
        zeros((w - spec_digits(v).len()) as nat) + spec_digits(v)
    }
}

/// `digit_char` and `digit_val` are inverse on single digits.
pub proof fn lemma_digit_char_val(d: int)
    requires
        0 <= d < 10,
    ensures
        is_digit(digit_char(d)),
        digit_val(digit_char(d)) == d,
{
}

/// The digit string of a number holds only digits, and decodes back to it.
pub proof fn lemma_spec_digits_val(v: int)
    requires
        0 <= v,
    ensures
        all_digits(spec_digits(v)),
        digits_val(spec_digits(v)) == v,
        spec_digits(v).len() >= 1,
    decreases v,
{
    if v < 10 {
        lemma_digit_char_val(v);
        assert(spec_digits(v) =~= seq![digit_char(v)]);
        assert(spec_digits(v).drop_last() =~= Seq::<char>::empty());
        assert(spec_digits(v).last() == digit_char(v));
        assert(digits_val(Seq::<char>::empty()) == 0);
        assert(digits_val(spec_digits(v)) == digits_val(Seq::<char>::empty()) * 10 + digit_val(
            digit_char(v),
        ));
    } else {
        lemma_spec_digits_val(v / 10);
        lemma_digit_char_val(v % 10);
        assert(spec_digits(v).drop_last() =~= spec_digits(v / 10));
        assert(spec_digits(v).last() == digit_char(v % 10));
        assert(digits_val(spec_digits(v)) == digits_val(spec_digits(v / 10)) * 10 + digit_val(
            digit_char(v % 10),
        ));
        assert(v / 10 * 10 + v % 10 == v);
    }
}

/// A number below `pow10(w)` needs at most `w` digits.
pub proof fn lemma_spec_digits_len(v: int, w: nat)
    requires
        0 <= v < pow10(w),
        1 <= w,
    ensures
        spec_digits(v).len() <= w,
    decreases w,
{
    if v < 10 {
    } else {
        lemma_pow10_small();
        assert(w >= 2) by {
            if w == 1 {
                assert(pow10(1) == 10);
            }
        }
        assert(pow10(w) == 10 * pow10((w - 1) as nat));
        lemma_spec_digits_len(v / 10, (w - 1) as nat);
    }
}

/// Concatenating digit strings multiplies the left value by a power of ten.
pub proof fn lemma_digits_val_concat(a: Seq<char>, b: Seq<char>)
    ensures
        digits_val(a + b) == digits_val(a) * pow10(b.len()) + digits_val(b),
    decreases b.len(),
{
    if b.len() == 0 {
        assert(a + b =~= a);
        assert(b =~= Seq::<char>::empty());
        assert(digits_val(b) == 0);
        lemma_pow10_small();
    } else {
        lemma_digits_val_concat(a, b.drop_last());
        assert(digits_val(b) == digits_val(b.drop_last()) * 10 + digit_val(b.last()));
        assert((a + b).drop_last() =~= a + b.drop_last());
        assert((a + b).last() == b.last());
        assert(digits_val(a + b) == (digits_val(a) * pow10((b.len() - 1) as nat) + digits_val(
            b.drop_last(),
        )) * 10 + digit_val(b.last()));
        assert(pow10(b.len()) == 10 * pow10((b.len() - 1) as nat));
        assert(digits_val(a) * pow10(b.len()) == (digits_val(a) * pow10(
            (b.len() - 1) as nat,
        )) * 10) by (nonlinear_arith)
            requires
                pow10(b.len()) == 10 * pow10((b.len() - 1) as nat),
        ;
    }
}

/// A run of zeros decodes to zero.
pub proof fn lemma_zeros_val(n: nat)
    ensures
        digits_val(zeros(n)) == 0,
        all_digits(zeros(n)),
    decreases n,
{
    if n > 0 {
        lemma_zeros_val((n - 1) as nat);
        assert(zeros(n).drop_last() =~= zeros((n - 1) as nat));
        assert(zeros(n).last() == '0');
    }
}

/// A rendered number holds only digits and decodes back to its value; when
/// the value fits the width, the rendering is exactly `w` characters long.
pub proof fn lemma_render_props(v: int, w: nat)
    requires
        0 <= v,
        1 <= w,
    ensures
        all_digits(spec_render(v, w as int)),
        digits_val(spec_render(v, w as int)) == v,
        spec_render(v, w as int).len() >= w,
        v < pow10(w) ==> spec_render(v, w as int).len() == w,
{
    lemma_spec_digits_val(v);
    if spec_digits(v).len() < w {
        let k = (w - spec_digits(v).len()) as nat;
        lemma_zeros_val(k);
        lemma_digits_val_concat(zeros(k), spec_digits(v));
        assert(digits_val(zeros(k)) * pow10(spec_digits(v).len()) == 0) by (nonlinear_arith)
            requires
                digits_val(zeros(k)) == 0,
        ;
        assert forall|j: int| 0 <= j < spec_render(v, w as int).len() implies is_digit(
            #[trigger] spec_render(v, w as int)[j],
        ) by {
            if j < k {
                assert(spec_render(v, w as int)[j] == '0');
            } else {
                assert(spec_render(v, w as int)[j] == spec_digits(v)[j - k]);
            }
        }
    }
    if v < pow10(w) {
        lemma_spec_digits_len(v, w);
    }
}

/// Renders one digit as a string slice.
fn digit_str(d: u32) -> (r: &'static str)
    requires
        d < 10,
    ensures
        r@ =~= seq![digit_char(d as int)],
{
    proof {
        reveal_strlit("0");
        reveal_strlit("1");
        reveal_strlit("2");
        reveal_strlit("3");
        reveal_strlit("4");
        reveal_strlit("5");
        reveal_strlit("6");
        reveal_strlit("7");
        reveal_strlit("8");
        reveal_strlit("9");
    }
    match d {
        0 => "0",
        1 => "1",
        2 => "2",
        3 => "3",
        4 => "4",
        5 => "5",
        6 => "6",
        7 => "7",
        8 => "8",
        _ => "9",
    }
}

/// The base-ten digit string of a number.
pub fn digits_string(v: u64) -> (r: String)
    ensures
        r@ == spec_digits(v as int),
    decreases v,
{
    if v < 10 {
        String::from_str(digit_str(v as u32))
    } else {
        let mut r = digits_string(v / 10);
        r.append(digit_str((v % 10) as u32));
        proof {
            assert(spec_digits(v as int) =~= spec_digits(v as int / 10).push(
                digit_char(v as int % 10),
            ));
            assert(spec_digits(v as int / 10).push(digit_char(v as int % 10)) =~= spec_digits(
                v as int / 10,
            ) + seq![digit_char(v as int % 10)]);
        }
        r
    }
}

/// Renders a number zero-padded to at least `width` characters.
pub fn render_number(v: u32, width: usize) -> (r: String)
    ensures
        r@ == spec_render(v as int, width as int),
{
    let ds = digits_string(v as u64);
    let len = ds.as_str().unicode_len();
    if len >= width {
        ds
    } else {
        proof {
            reveal_strlit("");
            reveal_strlit("0");
        }
        let mut r = String::from_str("");
        let mut k: usize = 0;
        while k < width - len
            invariant
                k <= width - len,
                len < width,
                r@ =~= zeros(k as nat),
            decreases width - len - k,
        {
            r.append("0");
            proof {
                reveal_strlit("0");
                assert(r@ =~= zeros((k + 1) as nat));
            }
            k = k + 1;
        }
        r.append(ds.as_str());
        proof {
            assert(r@ =~= zeros((width - len) as nat) + spec_digits(v as int));
        }
        r
    }
}

/// The file name as rewritten around tag `tag`: the text before the tag, a
/// fresh `S<season>E<episode>` rendering, and the text after the tag.
pub open spec fn spec_rewritten(s: Seq<char>, tag: EpisodeTag, ns: int, ne: int) -> Seq<char> {
    s.subrange(0, tag.start as int) + seq!['S'] + spec_render(ns, tag.season_width as int)
        + seq!['E'] + spec_render(ne, tag.episode_width as int) + s.skip(tag.span_end())
}

/// Replaces the tag's season and episode numbers, keeping each field's digit
/// width (a number too wide for its field keeps all its digits) and leaving
/// every character outside the tag unchanged.
pub fn rewrite(name: &str, tag: &EpisodeTag, new_season: u32, new_episode: u32) -> (r: String)
    requires
        tag.matches(name@),
    ensures
        r@ == spec_rewritten(name@, *tag, new_season as int, new_episode as int),
{
    proof {
        reveal_strlit("S");
        reveal_strlit("E");
    }
    let n = name.unicode_len();
    let prefix = name.substring_char(0, tag.start);
    let mut r = String::from_str(prefix);
    r.append("S");
    let srend = render_number(new_season, tag.season_width);
    r.append(srend.as_str());
    r.append("E");
    let erend = render_number(new_episode, tag.episode_width);
    r.append(erend.as_str());
    let suffix = name.substring_char(tag.start + 2 + tag.season_width + tag.episode_width, n);
    r.append(suffix);
    proof {
        assert(r@ =~= spec_rewritten(name@, *tag, new_season as int, new_episode as int));
    }
    r
}

/// Law: rewriting the first tag of a file name with numbers that fit their
/// fields' written widths changes nothing outside the tag region, keeps the
/// name's length, and the rewritten name's first tag sits at the same place
/// with the same digit widths and the new numbers.
pub proof fn lemma_rewritten_tag(s: Seq<char>, tag: EpisodeTag, ns: u32, ne: u32)
    requires
        tag.wf(s),
        ns < pow10(tag.season_width as nat),
        ne < pow10(tag.episode_width as nat),
    ensures
        spec_rewritten(s, tag, ns as int, ne as int).len() == s.len(),
        (EpisodeTag {
            season: ns,
            episode: ne,
            season_width: tag.season_width,
            episode_width: tag.episode_width,
            start: tag.start,
        }).wf(spec_rewritten(s, tag, ns as int, ne as int)),
{
    let p = tag.start as int;
    let ws = tag.season_width as int;
    let we = tag.episode_width as int;
    let sr = spec_render(ns as int, ws);
    let er = spec_render(ne as int, we);
    let r = spec_rewritten(s, tag, ns as int, ne as int);
    lemma_render_props(ns as int, tag.season_width as nat);
    lemma_render_props(ne as int, tag.episode_width as nat);
    assert(sr.len() == ws);
    assert(er.len() == we);
    assert(r.len() == s.len());
    assert forall|k: int| #![trigger r[k]] 0 <= k < p implies r[k] == s[k] by {}
    assert(r[p] == 'S');
    assert forall|k: int| #![trigger r[k]] p + 1 <= k < p + 1 + ws implies r[k] == sr[k - (p + 1)] by {}
    assert(r[p + 1 + ws] == 'E');
    assert forall|k: int| #![trigger r[k]] p + 2 + ws <= k < p + 2 + ws + we implies r[k] == er[
        k - (p + 2 + ws)
    ] by {}
    assert forall|k: int| #![trigger r[k]] p + 2 + ws + we <= k < s.len() implies r[k] == s[k] by {}
    // Character classes (digit, `S`, `E`) agree everywhere: outside the tag
    // the characters are identical, and inside it digits replace digits.
    assert forall|k: int| #![trigger r[k]] 0 <= k < s.len() implies (is_digit(r[k]) == is_digit(
        s[k],
    ) && (r[k] == 'S') == (s[k] == 'S') && (r[k] == 'E') == (s[k] == 'E')) by {
        if k < p {
        } else if k == p {
        } else if k < p + 1 + ws {
            assert(is_digit(sr[k - (p + 1)]));
            assert(is_digit(s[k]));
        } else if k == p + 1 + ws {
        } else if k < p + 2 + ws + we {
            assert(is_digit(er[k - (p + 2 + ws)]));
            assert(is_digit(s[k]));
        } else {
        }
    }
    // The rewritten name matches at the same place with the same widths.
    assert(tag_match_at(r, p, ws, we)) by {
        assert forall|k: int| p + 1 <= k < p + 1 + ws implies is_digit(#[trigger] r[k]) by {
            assert(is_digit(sr[k - (p + 1)]));
        }
        assert forall|k: int| p + 2 + ws <= k < p + 2 + ws + we implies is_digit(
            #[trigger] r[k],
        ) by {
            assert(is_digit(er[k - (p + 2 + ws)]));
        }
        if we == 2 && p + 2 + ws + we < s.len() {
            assert(r[p + 2 + ws + we] == s[p + 2 + ws + we]);
        }
    }
    // The new fields decode from the rewritten digits.
    assert(r.subrange(p + 1, p + 1 + ws) =~= sr);
    assert(r.subrange(p + 2 + ws, p + 2 + ws + we) =~= er);
    // No tag occurrence appears before the rewritten one: a match reads only
    // character classes, which the rewrite preserves.
    assert forall|q: int| 0 <= q < p implies !has_tag_at(r, q) by {
        if has_tag_at(r, q) {
            let (ws2, we2) = choose|ws2: int, we2: int| tag_match_at(r, q, ws2, we2);
            assert(tag_match_at(s, q, ws2, we2)) by {
                assert(s[q] == 'S');
                assert forall|k: int| q + 1 <= k < q + 1 + ws2 implies is_digit(
                    #[trigger] s[k],
                ) by {
                    assert(is_digit(r[k]));
                }
                assert(s[q + 1 + ws2] == 'E');
                assert forall|k: int| q + 2 + ws2 <= k < q + 2 + ws2 + we2 implies is_digit(
                    #[trigger] s[k],
                ) by {
                    assert(is_digit(r[k]));
                }
                if we2 == 2 && q + 2 + ws2 + we2 < s.len() {
                    assert(is_digit(r[q + 2 + ws2 + we2]) == is_digit(s[q + 2 + ws2 + we2]));
                }
            }
            assert(has_tag_at(s, q));
            assert(false);
        }
    }
}

/// Returns the file name up to and including its episode tag, discarding any
/// previously appended title text after the tag.
pub fn strip_old_suffix(name: &str, tag: &EpisodeTag) -> (r: String)
    requires
        tag.matches(name@),
    ensures
        r@ == name@.subrange(0, tag.span_end()),
{
    let n = name.unicode_len();
    let prefix = name.substring_char(0, tag.start + 2 + tag.season_width + tag.episode_width);
    String::from_str(prefix)
}

} // verus!
