//! The cancellable media scan, modelled as a fold over the stream of
//! directory events a walk produces: a cancellation event anywhere makes the
//! whole scan yield a cancellation outcome and never a partial file list,
//! while a failed directory read is skipped and the walk goes on. Also the
//! video-extension test, byte-size formatting, and the size report.

use vstd::prelude::*;
use crate::pattern::{spec_digits, spec_render, digits_string, render_number, pow10, lemma_pow10_small};
use crate::text::{sanitized, sanitize_name, clone_string};

verus! {

/// One listed file or directory, as shown to callers.
pub struct FileInfo {
    pub path: String,
    pub is_dir: bool,
    pub is_video: bool,
    pub name: String,
}

/// The mathematical shape of one listing entry.
pub struct FileRecord {
    pub path: Seq<char>,
    pub is_dir: bool,
    pub is_video: bool,
    pub name: Seq<char>,
}

impl View for FileInfo {
    type V = FileRecord;

    open spec fn view(&self) -> FileRecord {
        FileRecord {
            path: self.path@,
            is_dir: self.is_dir,
            is_video: self.is_video,
            name: self.name@,
        }
    }
}

/// The ASCII-lowercased form of a character.
pub open spec fn lower_char(c: char) -> char {
    if 'A' <= c && c <= 'Z' {
        (((c as u32) + 32) as u8) as char
    } else {
        c
    }
}

/// A string lowercased character by character.
pub open spec fn spec_lower(s: Seq<char>) -> Seq<char> {
    Seq::new(s.len(), |i: int| lower_char(s[i]))
}

/// The index of the last `'.'` in a name, or `-1` when there is none.
pub open spec fn last_dot_index(s: Seq<char>) -> int
    decreases s.len(),
{
    if s.len() == 0 {
        -1
    } else if s.last() == '.' {
        s.len() - 1
    } else {
        last_dot_index(s.drop_last())
    }
}

/// A file name counts as video when the text after its last dot, lowercased,
/// is one of the known video extensions; a name whose only dot leads it (a
/// hidden file) has no extension.
pub open spec fn spec_is_video_file(s: Seq<char>) -> bool {
    last_dot_index(s) >= 1 && {
        let e = spec_lower(s.skip(last_dot_index(s) + 1));
        ||| e == "mp4"@
        ||| e == "mkv"@
        ||| e == "avi"@
        ||| e == "mov"@
        ||| e == "wmv"@
        ||| e == "flv"@
        ||| e == "webm"@
        ||| e == "m4v"@
    }
}

/// A dot at position `d` with no later dot is the last one.
proof fn lemma_last_dot_at(s: Seq<char>, d: int)
    requires
        0 <= d < s.len(),
        s[d] == '.',
        forall|m: int| d < m < s.len() ==> s[m] != '.',
    ensures
        last_dot_index(s) == d,
    decreases s.len(),
{
    if d < s.len() - 1 {
        assert(s.last() != '.');
        assert(forall|m: int| 0 <= m < s.len() - 1 ==> #[trigger] s.drop_last()[m] == s[m]);
        lemma_last_dot_at(s.drop_last(), d);
    }
}

/// A name without any dot has no last one.
proof fn lemma_no_dot(s: Seq<char>)
    requires
        forall|m: int| 0 <= m < s.len() ==> s[m] != '.',
    ensures
        last_dot_index(s) == -1,
    decreases s.len(),
{
    if s.len() > 0 {
        assert(forall|m: int| 0 <= m < s.len() - 1 ==> #[trigger] s.drop_last()[m] == s[m]);
        lemma_no_dot(s.drop_last());
    }
}

/// Lowercases one ASCII letter.
fn lower_char_exec(c: char) -> (r: char)
    ensures
        r == lower_char(c),
{
    if 'A' <= c && c <= 'Z' {
        (((c as u32) + 32) as u8) as char
    } else {
        c
    }
}

/// Whether the lowercased text of `name` from `from` on equals `lit`.
fn ext_matches(name: &str, from: usize, n: usize, lit: &str) -> (r: bool)
    requires
        n == name@.len(),
        from <= n,
    ensures
        r == (spec_lower(name@.skip(from as int)) == lit@),
{
    let m = lit.unicode_len();
    if n - from != m {
        proof {
            assert(spec_lower(name@.skip(from as int)).len() != lit@.len());
        }
        return false;
    }
    let mut j: usize = 0;
    while j < m
        invariant
            j <= m,
            n == name@.len(),
            from + m == n,
            m == lit@.len(),
            forall|k: int|
                0 <= k < j ==> lower_char(#[trigger] name@.skip(from as int)[k]) == lit@[k],
        decreases m - j,
    {
        let c = lower_char_exec(name.get_char(from + j));
        if c != lit.get_char(j) {
            proof {
                assert(spec_lower(name@.skip(from as int))[j as int] != lit@[j as int]);
            }
            return false;
        }
        j = j + 1;
    }
    proof {
        assert(spec_lower(name@.skip(from as int)) =~= lit@);
    }
    true
}

/// True when the file name carries one of the known video extensions,
/// compared without regard to letter case.
pub fn is_video_file(name: &str) -> (r: bool)
    ensures
        r == spec_is_video_file(name@),
{
    let n = name.unicode_len();
    let mut k: usize = n;
    let mut d: usize = 0;
    let mut found = false;
    while k > 0
        invariant
            k <= n,
            n == name@.len(),
            !found ==> forall|m: int| k <= m < n ==> name@[m] != '.',
            found ==> k <= d < n && name@[d as int] == '.' && forall|m: int|
                d < m < n ==> name@[m] != '.',
        decreases k,
    {
        k = k - 1;
        if !found && name.get_char(k) == '.' {
            d = k;
            found = true;
        }
    }
    if !found {
        proof {
            lemma_no_dot(name@);
        }
        return false;
    }
    proof {
        lemma_last_dot_at(name@, d as int);
    }
    if d < 1 {
        return false;
    }
    proof {
        reveal_strlit("mp4");
        reveal_strlit("mkv");
        reveal_strlit("avi");
        reveal_strlit("mov");
        reveal_strlit("wmv");
        reveal_strlit("flv");
        reveal_strlit("webm");
        reveal_strlit("m4v");
    }
    let from = d + 1;
    ext_matches(name, from, n, "mp4") || ext_matches(name, from, n, "mkv") || ext_matches(
        name,
        from,
        n,
        "avi",
    ) || ext_matches(name, from, n, "mov") || ext_matches(name, from, n, "wmv") || ext_matches(
        name,
        from,
        n,
        "flv",
    ) || ext_matches(name, from, n, "webm") || ext_matches(name, from, n, "m4v")
}

/// One step of the path from a directory up to the file-system root, as the
/// navigation pane shows it.
pub struct DirectoryHierarchy {
    pub full_path: String,
    pub dir_name: String,
}

/// One drive of the machine, as the drive list shows it.
pub struct DriveInfo {
    pub letter: String,
    pub name: String,
}

/// One event of a directory walk, as the walking shell reports it: an entry
/// it found, a directory read that failed (skipped, the walk goes on), or a
/// cancellation check that fired.
pub enum ScanEvent {
    Found { path: String, name: String, is_dir: bool, size: u64 },
    ReadFailed,
    Cancelled,
}

/// What a scan yields: the collected media files, or a cancellation outcome
/// that carries no partial result.
pub enum ScanOutcome {
    Completed(Vec<FileInfo>),
    Cancelled,
}

/// What a recursive size computation yields.
pub enum SizeOutcome {
    Completed(u64),
    Cancelled,
}

/// A cancellation event occurs somewhere in the stream.
pub open spec fn spec_scan_cancelled(events: Seq<ScanEvent>) -> bool {
    exists|k: int| 0 <= k < events.len() && (#[trigger] events[k]) is Cancelled
}

/// The media files an uncancelled walk collects: each non-directory entry
/// with a video extension, in order, its name sanitised for the file system.
pub open spec fn spec_media_files(events: Seq<ScanEvent>) -> Seq<FileRecord>
    decreases events.len(),
{
    if events.len() == 0 {
        Seq::empty()
    } else {
        let rest = spec_media_files(events.drop_first());
        match events[0] {
            ScanEvent::Found { path, name, is_dir, size } => if !is_dir && spec_is_video_file(
                name@,
            ) {
                seq![
                    FileRecord {
                        path: path@,
                        is_dir: false,
                        is_video: true,
                        name: sanitized(name@),
                    },
                ] + rest
            } else {
                rest
            },
            _ => rest,
        }
    }
}

/// The view sequence of a file list.
pub open spec fn spec_files_view(v: Seq<FileInfo>) -> Seq<FileRecord> {
    Seq::new(v.len(), |i: int| v[i]@)
}

/// Folds a walk's event stream into the scan's outcome. A cancellation
/// event anywhere yields a cancellation outcome and discards everything
/// collected before it — never a partial file list — while failed directory
/// reads are skipped and the remaining events still count.
pub fn collect_media_files(events: &Vec<ScanEvent>) -> (r: ScanOutcome)
    ensures
        (r is Cancelled) <==> spec_scan_cancelled(events@),
        match r {
            ScanOutcome::Completed(files) => spec_files_view(files@) == spec_media_files(events@),
            ScanOutcome::Cancelled => true,
        },
{
    let ghost ev = events@;
    let mut files: Vec<FileInfo> = Vec::new();
    let mut i: usize = 0;
    proof {
        assert(ev.skip(0) =~= ev);
        assert(spec_files_view(files@) =~= Seq::<FileRecord>::empty());
    }
    while i < events.len()
        invariant
            i <= events@.len(),
            ev == events@,
            forall|m: int| 0 <= m < i ==> !((#[trigger] ev[m]) is Cancelled),
            spec_media_files(ev) == spec_files_view(files@) + spec_media_files(ev.skip(i as int)),
        decreases events@.len() - i,
    {
        proof {
            assert(ev.skip(i as int).drop_first() =~= ev.skip(i as int + 1));
            assert(ev.skip(i as int)[0] == ev[i as int]);
        }
        let ghost f0 = files@;
        match &events[i] {
            ScanEvent::Found { path, name, is_dir, size } => {
                if !*is_dir && is_video_file(name.as_str()) {
                    let info = FileInfo {
                        path: clone_string(path),
                        is_dir: false,
                        is_video: true,
                        name: sanitize_name(name.as_str()),
                    };
                    files.push(info);
                    proof {
                        assert forall|k: int|
                            #![trigger spec_files_view(files@)[k]]
                            0 <= k < files@.len() implies spec_files_view(files@)[k] == (
                        spec_files_view(f0) + spec_media_files(ev.skip(i as int)).take(1))[k] by {
                            if k < f0.len() {
                                assert(files@[k] == f0[k]);
                            } else {
                                assert(files@[k] == files@.last());
                            }
                        }
                        assert(spec_files_view(files@) =~= spec_files_view(f0)
                            + spec_media_files(ev.skip(i as int)).take(1));
                        assert(spec_media_files(ev.skip(i as int)).take(1)
                            + spec_media_files(ev.skip(i as int + 1)) =~= spec_media_files(
                            ev.skip(i as int),
                        ));
                        assert(spec_files_view(files@) + spec_media_files(ev.skip(i as int + 1))
                            =~= spec_files_view(f0) + spec_media_files(ev.skip(i as int)));
                    }
                }
            },
            ScanEvent::ReadFailed => {},
            ScanEvent::Cancelled => {
                proof {
                    assert(ev[i as int] is Cancelled);
                }
                return ScanOutcome::Cancelled;
            },
        }
        i = i + 1;
    }
    proof {
        assert(ev.skip(ev.len() as int) =~= Seq::<ScanEvent>::empty());
        assert(spec_files_view(files@) + spec_media_files(ev.skip(ev.len() as int))
            =~= spec_files_view(files@));
        if spec_scan_cancelled(ev) {
            let k = choose|k: int| 0 <= k < ev.len() && (#[trigger] ev[k]) is Cancelled;
            assert(!(ev[k] is Cancelled));
        }
    }
    ScanOutcome::Completed(files)
}

/// The total size of the non-directory entries of an event stream.
pub open spec fn spec_size_sum(events: Seq<ScanEvent>) -> int
    decreases events.len(),
{
    if events.len() == 0 {
        0
    } else {
        spec_size_sum(events.drop_last()) + match events.last() {
            ScanEvent::Found { path, name, is_dir, size } => if is_dir {
                0
            } else {
                size as int
            },
            _ => 0,
        }
    }
}

/// Sums of event prefixes never shrink.
proof fn lemma_size_sum_nonneg(events: Seq<ScanEvent>)
    ensures
        spec_size_sum(events) >= 0,
    decreases events.len(),
{
    if events.len() > 0 {
        lemma_size_sum_nonneg(events.drop_last());
    }
}

/// Folds a walk's event stream into the aggregate byte size of its files,
/// saturating at the largest representable size; a cancellation event
/// anywhere yields a cancellation outcome instead of a number.
pub fn directory_size_from_events(events: &Vec<ScanEvent>) -> (r: SizeOutcome)
    ensures
        (r is Cancelled) <==> spec_scan_cancelled(events@),
        match r {
            SizeOutcome::Completed(total) => total as int == if spec_size_sum(events@)
                <= u64::MAX as int {
                spec_size_sum(events@)
            } else {
                u64::MAX as int
            },
            SizeOutcome::Cancelled => true,
        },
{
    let ghost ev = events@;
    let mut total: u64 = 0;
    let mut i: usize = 0;
    proof {
        assert(ev.take(0) =~= Seq::<ScanEvent>::empty());
    }
    while i < events.len()
        invariant
            i <= events@.len(),
            ev == events@,
            forall|m: int| 0 <= m < i ==> !((#[trigger] ev[m]) is Cancelled),
            total as int == if spec_size_sum(ev.take(i as int)) <= u64::MAX as int {
                spec_size_sum(ev.take(i as int))
            } else {
                u64::MAX as int
            },
        decreases events@.len() - i,
    {
        proof {
            assert(ev.take(i as int + 1).drop_last() =~= ev.take(i as int));
            assert(ev.take(i as int + 1).last() == ev[i as int]);
            lemma_size_sum_nonneg(ev.take(i as int));
        }
        match &events[i] {
            ScanEvent::Found { path, name, is_dir, size } => {
                if !*is_dir {
                    if total <= u64::MAX - *size {
                        total = total + *size;
                    } else {
                        total = u64::MAX;
                    }
                }
            },
            ScanEvent::ReadFailed => {},
            ScanEvent::Cancelled => {
                proof {
                    assert(ev[i as int] is Cancelled);
                }
                return SizeOutcome::Cancelled;
            },
        }
        i = i + 1;
    }
    proof {
        assert(ev.take(ev.len() as int) =~= ev);
        if spec_scan_cancelled(ev) {
            let k = choose|k: int| 0 <= k < ev.len() && (#[trigger] ev[k]) is Cancelled;
            assert(!(ev[k] is Cancelled));
        }
    }
    SizeOutcome::Completed(total)
}

/// A byte count in hundredths of the given unit, rounded to nearest with
/// halves up.
pub open spec fn spec_size_hundredths(size: int, unit: int) -> int {
    (size * 200 + unit) / (2 * unit)
}

/// A byte count written against one unit: the whole part, a dot, and two
/// fraction digits.
pub open spec fn spec_size_text(size: int, unit: int) -> Seq<char> {
    spec_digits(spec_size_hundredths(size, unit) / 100) + seq!['.'] + spec_render(
        spec_size_hundredths(size, unit) % 100,
        2,
    )
}

/// A byte count written against the largest binary unit it reaches, to two
/// decimal places (nearest hundredth, halves rounded up): gigabytes,
/// megabytes, or kilobytes.
pub open spec fn spec_format_size(size: int) -> Seq<char> {
    if size >= 1073741824 {
        spec_size_text(size, 1073741824) + " GB"@
    } else if size >= 1048576 {
        spec_size_text(size, 1048576) + " MB"@
    } else {
        spec_size_text(size, 1024) + " KB"@
    }
}

/// Writes a byte count against one binary unit.
fn size_text(size: u64, unit: u64) -> (r: String)
    requires
        unit == 1024 || unit == 1048576 || unit == 1073741824,
    ensures
        r@ == spec_size_text(size as int, unit as int),
{
    proof {
        reveal_strlit(".");
    }
    let h: u128 = ((size as u128) * 200 + (unit as u128)) / (2 * (unit as u128));
    proof {
        let s = size as int;
        assert(h as int == spec_size_hundredths(size as int, unit as int));
        if unit == 1024 {
            assert(h as int == (s * 200 + 1024) / 2048);
            vstd::arithmetic::div_mod::lemma_fundamental_div_mod(s * 200 + 1024, 2048);
            vstd::arithmetic::div_mod::lemma_mod_bound(s * 200 + 1024, 2048);
            assert(s * 200 + 1024 < 2048 * 0x10000000000000000);
            assert(h < 0x10000000000000000u128);
        } else if unit == 1048576 {
            assert(h as int == (s * 200 + 1048576) / 2097152);
            vstd::arithmetic::div_mod::lemma_fundamental_div_mod(s * 200 + 1048576, 2097152);
            vstd::arithmetic::div_mod::lemma_mod_bound(s * 200 + 1048576, 2097152);
            assert(s * 200 + 1048576 < 2097152 * 0x10000000000000000);
            assert(h < 0x10000000000000000u128);
        } else {
            assert(h as int == (s * 200 + 1073741824) / 2147483648);
            vstd::arithmetic::div_mod::lemma_fundamental_div_mod(s * 200 + 1073741824, 2147483648);
            vstd::arithmetic::div_mod::lemma_mod_bound(s * 200 + 1073741824, 2147483648);
            assert(s * 200 + 1073741824 < 2147483648 * 0x10000000000000000);
            assert(h < 0x10000000000000000u128);
        }
    }
    let whole: u64 = (h / 100) as u64;
    let frac: u32 = (h % 100) as u32;
    let mut r = digits_string(whole);
    r.append(".");
    let fr = render_number(frac, 2);
    r.append(fr.as_str());
    proof {
        assert(r@ =~= spec_size_text(size as int, unit as int));
    }
    r
}

/// Writes a byte count the way the size report shows it.
pub fn format_size(size: u64) -> (r: String)
    ensures
        r@ == spec_format_size(size as int),
{
    if size >= 1073741824 {
        proof {
            reveal_strlit(" GB");
        }
        let mut r = size_text(size, 1073741824);
        r.append(" GB");
        r
    } else if size >= 1048576 {
        proof {
            reveal_strlit(" MB");
        }
        let mut r = size_text(size, 1048576);
        r.append(" MB");
        r
    } else {
        proof {
            reveal_strlit(" KB");
        }
        let mut r = size_text(size, 1024);
        r.append(" KB");
        r
    }
}

/// A listing entry together with its computed byte size.
pub struct SizedEntry {
    pub info: FileInfo,
    pub size: u64,
}

/// The mathematical shape of a sized entry.
pub struct SizedRecord {
    pub info: FileRecord,
    pub size: int,
}

impl View for SizedEntry {
    type V = SizedRecord;

    open spec fn view(&self) -> SizedRecord {
        SizedRecord { info: self.info@, size: self.size as int }
    }
}

/// The view sequence of a vector of sized entries.
pub open spec fn spec_entries_view(v: Seq<SizedEntry>) -> Seq<SizedRecord> {
    Seq::new(v.len(), |i: int| v[i]@)
}

/// Inserting into a sequence inserts into its multiset.
proof fn lemma_insert_to_multiset(s: Seq<SizedRecord>, pos: int, x: SizedRecord)
    requires
        0 <= pos <= s.len(),
    ensures
        s.insert(pos, x).to_multiset() == s.to_multiset().insert(x),
{
    broadcast use vstd::seq_lib::group_to_multiset_ensures;

    let a = s.subrange(0, pos);
    let b = s.subrange(pos, s.len() as int);
    assert(s.insert(pos, x) =~= a.push(x) + b);
    assert(s =~= a + b);
    vstd::seq_lib::lemma_multiset_commutative(a.push(x), b);
    vstd::seq_lib::lemma_multiset_commutative(a, b);
    assert(a.push(x).to_multiset() =~= a.to_multiset().insert(x));
    assert(a.to_multiset().insert(x).add(b.to_multiset()) =~= a.to_multiset().add(
        b.to_multiset(),
    ).insert(x));
}

/// Copies one sized entry.
fn clone_sized(e: &SizedEntry) -> (r: SizedEntry)
    ensures
        r@ == e@,
{
    SizedEntry {
        info: FileInfo {
            path: clone_string(&e.info.path),
            is_dir: e.info.is_dir,
            is_video: e.info.is_video,
            name: clone_string(&e.info.name),
        },
        size: e.size,
    }
}

/// Orders the listing entries by size, largest first, keeping exactly the
/// given entries.
pub fn sort_entries_by_size_desc(entries: &Vec<SizedEntry>) -> (r: Vec<SizedEntry>)
    ensures
        spec_entries_view(r@).to_multiset() == spec_entries_view(entries@).to_multiset(),
        forall|k1: int, k2: int|
            #![trigger r@[k1], r@[k2]]
            0 <= k1 < k2 < r@.len() ==> r@[k1].size >= r@[k2].size,
{
    broadcast use vstd::seq_lib::group_to_multiset_ensures;

    let ghost ev = entries@;
    let mut out: Vec<SizedEntry> = Vec::new();
    let mut i: usize = 0;
    proof {
        assert(spec_entries_view(ev.take(0)) =~= Seq::<SizedRecord>::empty());
        assert(spec_entries_view(out@) =~= Seq::<SizedRecord>::empty());
    }
    while i < entries.len()
        invariant
            i <= entries@.len(),
            ev == entries@,
            spec_entries_view(out@).to_multiset() == spec_entries_view(
                ev.take(i as int),
            ).to_multiset(),
            forall|k1: int, k2: int|
                #![trigger out@[k1], out@[k2]]
                0 <= k1 < k2 < out@.len() ==> out@[k1].size >= out@[k2].size,
        decreases entries@.len() - i,
    {
        broadcast use vstd::seq_lib::group_to_multiset_ensures;

        let item = clone_sized(&entries[i]);
        let ghost item_v = item@;
        let mut pos: usize = 0;
        while pos < out.len() && out[pos].size >= item.size
            invariant
                pos <= out@.len(),
                forall|k: int| 0 <= k < pos ==> #[trigger] out@[k].size >= item.size,
                forall|k1: int, k2: int|
                    #![trigger out@[k1], out@[k2]]
                    0 <= k1 < k2 < out@.len() ==> out@[k1].size >= out@[k2].size,
            decreases out@.len() - pos,
        {
            pos = pos + 1;
        }
        let ghost out0 = out@;
        let ghost pos_g = pos as int;
        out.insert(pos, item);
        proof {
            out0.insert_ensures(pos_g, out@[pos_g]);
            assert forall|k1: int, k2: int|
                #![trigger out@[k1], out@[k2]]
                0 <= k1 < k2 < out@.len() implies out@[k1].size >= out@[k2].size by {
                if k1 < pos_g && k2 < pos_g {
                } else if k1 == pos_g || k2 == pos_g {
                    if k2 > pos_g {
                        assert(out@[k2] == out0[k2 - 1]);
                        assert(out0[pos_g] == out@[pos_g + 1]);
                    }
                } else if k1 > pos_g && k2 > pos_g {
                    assert(out@[k1] == out0[k1 - 1]);
                    assert(out@[k2] == out0[k2 - 1]);
                } else {
                    assert(out@[k2] == out0[k2 - 1]);
                }
            }
            assert(spec_entries_view(out@) =~= spec_entries_view(out0).insert(pos_g, item_v));
            lemma_insert_to_multiset(spec_entries_view(out0), pos_g, item_v);
            assert(ev.take(i as int + 1).drop_last() =~= ev.take(i as int));
            assert(spec_entries_view(ev.take(i as int + 1)) =~= spec_entries_view(
                ev.take(i as int),
            ).push(item_v));
            assert(spec_entries_view(ev.take(i as int)).push(item_v).to_multiset()
                =~= spec_entries_view(ev.take(i as int)).to_multiset().insert(item_v));
        }
        i = i + 1;
    }
    proof {
        assert(ev.take(ev.len() as int) =~= ev);
    }
    out
}

/// Appends the written size to an entry's name, as the size report shows it.
pub fn label_with_size(info: &FileInfo, size: u64) -> (r: FileInfo)
    ensures
        r@.path == info@.path,
        r@.is_dir == info@.is_dir,
        r@.is_video == info@.is_video,
        r@.name == info@.name + seq![' ', '-', ' '] + spec_format_size(size as int),
{
    proof {
        reveal_strlit(" - ");
    }
    let mut name = clone_string(&info.name);
    name.append(" - ");
    let st = format_size(size);
    name.append(st.as_str());
    proof {
        assert(name@ =~= info@.name + seq![' ', '-', ' '] + spec_format_size(size as int));
    }
    FileInfo {
        path: clone_string(&info.path),
        is_dir: info.is_dir,
        is_video: info.is_video,
        name,
    }
}

} // verus!
