//! Per-line commit history of files, built from the lines of commit diffs.
use std::collections::HashMap;
use vstd::prelude::*;
use crate::text::{views, split_once_char, trim, parse_unsigned, chars_of, split_once_str, trim_str, parse_usize, substring, str_eq, to_owned_string};
use crate::utils::{levenshtein, edit_distance};
use crate::line_map::{move_keys, shifted, lemma_shifted_map_values};

verus! {

broadcast use vstd::std_specs::hash::group_hash_axioms;

/// A tracked line: its content and the commits that touched it, oldest
/// first.
pub type LineHistory = (Seq<char>, Seq<Seq<char>>);

/// The tracked lines of one file, by line number.
pub type FileHistory = Map<u32, LineHistory>;

/// The tracked lines of every file, by file path.
pub type HistoryView = Map<Seq<char>, FileHistory>;

/// The view of one file's line map.
pub open spec fn file_history(m: Map<u32, (String, Vec<String>)>) -> FileHistory {
    m.map_values(|e: (String, Vec<String>)| (e.0@, views(e.1@)))
}

/// The map that a list of `(path, lines)` entries stands for.
pub open spec fn entries_view(s: Seq<(String, HashMap<u32, (String, Vec<String>)>)>) -> HistoryView
    decreases s.len(),
{
    if s.len() == 0 {
        Map::empty()
    } else {
        entries_view(s.drop_last()).insert(s.last().0@, file_history(s.last().1@))
    }
}

/// No path occurs twice among the entries.
pub open spec fn distinct_paths(s: Seq<(String, HashMap<u32, (String, Vec<String>)>)>) -> bool {
    forall|i: int, j: int| 0 <= i < j < s.len() ==> s[i].0@ != s[j].0@
}

proof fn lemma_entries_contains(s: Seq<(String, HashMap<u32, (String, Vec<String>)>)>, k: Seq<char>)
    ensures
        entries_view(s).contains_key(k) <==> exists|i: int| 0 <= i < s.len() && #[trigger] s[i].0@ == k,
    decreases s.len(),
{
    if s.len() > 0 {
        lemma_entries_contains(s.drop_last(), k);
        if entries_view(s.drop_last()).contains_key(k) {
            let i = choose|i: int| 0 <= i < s.drop_last().len() && #[trigger] s.drop_last()[i].0@ == k;
            assert(s[i].0@ == k);
        }
        if exists|i: int| 0 <= i < s.len() && #[trigger] s[i].0@ == k {
            let i = choose|i: int| 0 <= i < s.len() && #[trigger] s[i].0@ == k;
            if i < s.len() - 1 {
                assert(s.drop_last()[i].0@ == k);
            }
        }
    }
}

proof fn lemma_entries_at(s: Seq<(String, HashMap<u32, (String, Vec<String>)>)>, i: int)
    requires
        distinct_paths(s),
        0 <= i < s.len(),
    ensures
        entries_view(s).contains_key(s[i].0@),
        entries_view(s)[s[i].0@] == file_history(s[i].1@),
    decreases s.len(),
{
    if i < s.len() - 1 {
        lemma_entries_at(s.drop_last(), i);
        assert(s.drop_last()[i] == s[i]);
    }
}

proof fn lemma_entries_update(
    s: Seq<(String, HashMap<u32, (String, Vec<String>)>)>,
    i: int,
    e: (String, HashMap<u32, (String, Vec<String>)>),
)
    requires
        distinct_paths(s),
        0 <= i < s.len(),
        e.0@ == s[i].0@,
    ensures
        distinct_paths(s.update(i, e)),
        entries_view(s.update(i, e)) == entries_view(s).insert(e.0@, file_history(e.1@)),
    decreases s.len(),
{
    let t = s.update(i, e);
    if i < s.len() - 1 {
        lemma_entries_update(s.drop_last(), i, e);
        assert(t.drop_last() =~= s.drop_last().update(i, e));
        assert(s.last().0@ != e.0@);
        assert(entries_view(t) =~= entries_view(s).insert(e.0@, file_history(e.1@)));
    } else {
        assert(t.drop_last() =~= s.drop_last());
        assert(entries_view(t) =~= entries_view(s).insert(e.0@, file_history(e.1@)));
    }
}

/// Line histories for every file, one entry per file path.
pub struct LineCommitMap {
    files: Vec<(String, HashMap<u32, (String, Vec<String>)>)>,
}

impl View for LineCommitMap {
    type V = HistoryView;

    closed spec fn view(&self) -> HistoryView {
        entries_view(self.files@)
    }
}

impl LineCommitMap {
    /// The map holds each file path once.
    pub closed spec fn wf(&self) -> bool {
        distinct_paths(self.files@)
    }

    /// A map that tracks nothing.
    pub fn new() -> (r: Self)
        ensures
            r.wf(),
            r@ == Map::<Seq<char>, FileHistory>::empty(),
    {
        let r = LineCommitMap { files: Vec::new() };
        assert(r@ =~= Map::<Seq<char>, FileHistory>::empty());
        r
    }

    fn position(&self, file_path: &str) -> (r: Option<usize>)
        requires
            self.wf(),
        ensures
            match r {
                Some(i) => i < self.files@.len() && self.files@[i as int].0@ == file_path@,
                None => !self@.contains_key(file_path@),
            },
    {
        let mut i: usize = 0;
        while i < self.files.len()
            invariant
                i <= self.files@.len(),
                forall|j: int| 0 <= j < i ==> #[trigger] self.files@[j].0@ != file_path@,
            decreases self.files@.len() - i,
        {
            if str_eq(self.files[i].0.as_str(), file_path) {
                return Some(i);
            }
            i = i + 1;
        }
        proof {
            lemma_entries_contains(self.files@, file_path@);
        }
        None
    }

    /// Sets the tracked lines of `file_path` to `lines`.
    pub fn insert(&mut self, file_path: String, lines: HashMap<u32, (String, Vec<String>)>)
        requires
            old(self).wf(),
        ensures
            final(self).wf(),
            final(self)@ == old(self)@.insert(file_path@, file_history(lines@)),
    {
        let ghost s0 = self.files@;
        match self.position(file_path.as_str()) {
            Some(i) => {
                let ghost e = (file_path, lines);
                proof {
                    lemma_entries_update(s0, i as int, (file_path, lines));
                }
                self.files.set(i, (file_path, lines));
                assert(self.files@ =~= s0.update(i as int, e));
            },
            None => {
                proof {
                    lemma_entries_contains(s0, file_path@);
                }
                let ghost fp = file_path@;
                self.files.push((file_path, lines));
                proof {
                    assert(self.files@.drop_last() =~= s0);
                    assert forall|a: int, b: int| 0 <= a < b < self.files@.len() implies self.files@[a].0@
                        != self.files@[b].0@ by {
                        if b == self.files@.len() - 1 {
                            assert(s0[a].0@ != fp);
                        } else {
                            assert(s0[a].0@ != s0[b].0@);
                        }
                    }
                }
            },
        }
    }

    /// The tracked lines of `file_path`, where any are recorded.
    pub fn get(&self, file_path: &str) -> (r: Option<&HashMap<u32, (String, Vec<String>)>>)
        requires
            self.wf(),
        ensures
            match r {
                Some(fm) => self@.contains_key(file_path@) && file_history(fm@) == self@[file_path@],
                None => !self@.contains_key(file_path@),
            },
    {
        match self.position(file_path) {
            Some(i) => {
                proof {
                    lemma_entries_at(self.files@, i as int);
                }
                Some(&self.files[i].1)
            },
            None => None,
        }
    }
}

/// The history of a line after commit `h` touched it with content `c`: a
/// new content replaces the old one and records `h`; the same content
/// records `h` unless `h` is already the latest commit. An untracked line
/// starts with content `c` and no commit.
pub open spec fn touched_line(old: Option<LineHistory>, c: Seq<char>, h: Seq<char>) -> LineHistory {
    let e = match old {
        Some(e) => e,
        None => (c, Seq::<Seq<char>>::empty()),
    };
    if e.0 != c {
        (c, e.1.push(h))
    } else if e.1.len() == 0 || e.1.last() != h {
        (e.0, e.1.push(h))
    } else {
        e
    }
}

/// The map after commit `h` touched line `n` of file `f` with content `c`.
pub open spec fn track(m: HistoryView, f: Seq<char>, n: u32, c: Seq<char>, h: Seq<char>) -> HistoryView {
    let fm = if m.contains_key(f) {
        m[f]
    } else {
        Map::empty()
    };
    m.insert(f, fm.insert(n, touched_line(fm.index_opt(n), c, h)))
}

/// Records that commit `commit_hash` touched line `line_number` of
/// `file_path`, leaving it with `content` (see `track`).
pub fn track_line_commit(
    file_path: &str,
    line_number: u32,
    content: String,
    commit_hash: String,
    map: &mut LineCommitMap,
)
    requires
        old(map).wf(),
    ensures
        final(map).wf(),
        final(map)@ == track(old(map)@, file_path@, line_number, content@, commit_hash@),
{
    let ghost m0 = map@;
    let i = match map.position(file_path) {
        Some(i) => {
            proof {
                lemma_entries_at(map.files@, i as int);
            }
            i
        },
        None => {
            let ghost s0 = map.files@;
            let fresh: HashMap<u32, (String, Vec<String>)> = HashMap::new();
            map.files.push((to_owned_string(file_path), fresh));
            proof {
                assert(map.files@.drop_last() =~= s0);
                assert(file_history(fresh@) =~= Map::<u32, LineHistory>::empty());
                lemma_entries_contains(s0, file_path@);
                assert forall|a: int, b: int| 0 <= a < b < map.files@.len() implies map.files@[a].0@
                    != map.files@[b].0@ by {
                    if b == map.files@.len() - 1 {
                        assert(s0[a].0@ != file_path@);
                    } else {
                        assert(s0[a].0@ != s0[b].0@);
                    }
                }
                lemma_entries_at(map.files@, map.files@.len() - 1);
            }
            map.files.len() - 1
        },
    };
    let ghost s1 = map.files@;
    let ghost fm0 = if m0.contains_key(file_path@) {
        m0[file_path@]
    } else {
        Map::<u32, LineHistory>::empty()
    };
    assert(file_history(s1[i as int].1@) == fm0);
    assert(map@ == m0.insert(file_path@, fm0)) by {
        if m0.contains_key(file_path@) {
            assert(map@ =~= m0.insert(file_path@, fm0));
        }
    }
    let (name, mut fm) = map.files.remove(i);
    let ghost fmv0 = fm@;
    let (mut c0, mut hs) = match fm.remove(&line_number) {
        Some(e) => e,
        None => (content.clone(), Vec::new()),
    };
    assert(fm0.index_opt(line_number) == if fmv0.contains_key(line_number) {
        Some((fmv0[line_number].0@, views(fmv0[line_number].1@)))
    } else {
        None::<LineHistory>
    });
    let ghost e0: LineHistory = (c0@, views(hs@));
    let ghost hs0 = views(hs@);
    if !str_eq(c0.as_str(), content.as_str()) {
        c0 = content;
        hs.push(commit_hash);
        assert(views(hs@) =~= hs0.push(commit_hash@));
    } else {
        let n = hs.len();
        let push = if n == 0 {
            true
        } else {
            assert(hs0.last() == hs@[n - 1]@);
            !str_eq(hs[n - 1].as_str(), commit_hash.as_str())
        };
        if push {
            hs.push(commit_hash);
            assert(views(hs@) =~= hs0.push(commit_hash@));
        }
    }
    let ghost fmv1 = fm@;
    fm.insert(line_number, (c0, hs));
    proof {
        assert((c0@, views(hs@)) == touched_line(fm0.index_opt(line_number), content@, commit_hash@));
        assert(file_history(fm@) =~= fm0.insert(
            line_number,
            touched_line(fm0.index_opt(line_number), content@, commit_hash@),
        ));
    }
    map.files.insert(i, (name, fm));
    proof {
        assert(map.files@ =~= s1.update(i as int, (name, fm)));
        lemma_entries_update(s1, i as int, (name, fm));
        assert(map@ =~= track(m0, file_path@, line_number, content@, commit_hash@));
    }
}


/// The map after every tracked line of file `f` from line `start` on moved
/// down by `count`; other files and earlier lines stay.
pub open spec fn shift_after_insert(m: HistoryView, f: Seq<char>, start: u32, count: u32) -> HistoryView {
    if m.contains_key(f) {
        m.insert(f, shifted(m[f], start as int, count as int))
    } else {
        m
    }
}

/// No tracked line of file `f` from line `start` on leaves the `u32` range
/// when moved down by `count`.
pub open spec fn shift_fits(m: HistoryView, f: Seq<char>, start: u32, count: nat) -> bool {
    m.contains_key(f) ==> forall|k: u32| #[trigger] m[f].contains_key(k) && k >= start ==> k + count <= u32::MAX
}

/// Moves every tracked line of `file_path` from `insertion_start` on down
/// by `added_count`; other files and earlier lines stay.
pub fn shift_lines_after_insert(
    file_path: &str,
    insertion_start: u32,
    added_count: u32,
    map: &mut LineCommitMap,
)
    requires
        old(map).wf(),
        shift_fits(old(map)@, file_path@, insertion_start, added_count as nat),
    ensures
        final(map).wf(),
        final(map)@ == shift_after_insert(old(map)@, file_path@, insertion_start, added_count),
{
    let ghost m0 = map@;
    match map.position(file_path) {
        None => {},
        Some(i) => {
            proof {
                lemma_entries_at(map.files@, i as int);
            }
            let ghost s1 = map.files@;
            let (name, mut fm) = map.files.remove(i);
            let ghost fmv0 = fm@;
            move_keys(&mut fm, insertion_start as u64, added_count as i64);
            proof {
                lemma_shifted_map_values(
                    fmv0,
                    insertion_start as int,
                    added_count as int,
                    |e: (String, Vec<String>)| (e.0@, views(e.1@)),
                );
            }
            map.files.insert(i, (name, fm));
            proof {
                assert(map.files@ =~= s1.update(i as int, (name, fm)));
                lemma_entries_update(s1, i as int, (name, fm));
            }
        },
    }
}

/// Lines of a hunk waiting to be matched: `(line number, content)`.
pub type Pending = Seq<(int, Seq<char>)>;

pub open spec fn pending_view(v: Seq<(usize, String)>) -> Pending {
    v.map_values(|p: (usize, String)| (p.0 as int, p.1@))
}

/// A diff line that opens a hunk: it starts with `@@`.
pub open spec fn opens_hunk(line: Seq<char>) -> bool {
    line.len() >= 2 && line[0] == '@' && line[1] == '@'
}

/// The first new-side line number of a hunk header: the number between the
/// first `+` and the `,` after it, trimmed, or 0 where it does not parse;
/// `ln` where the header has no `+` or no `,` after it.
pub open spec fn hunk_start(line: Seq<char>, ln: int) -> int {
    match split_once_char(line, '+') {
        Some((_, after)) => match split_once_char(after, ',') {
            Some((start, _)) => match parse_unsigned(trim(start), usize::MAX as nat) {
                Some(v) => v as int,
                None => 0,
            },
            None => ln,
        },
        None => ln,
    }
}

/// The line number a diff line starts with `c`.
pub open spec fn starts_with_char(line: Seq<char>, c: char) -> bool {
    line.len() > 0 && line[0] == c
}

/// The new-side line numbers of the diff from line `i` on, counted from
/// `ln`, stay within `usize`.
pub open spec fn line_numbers_fit(lines: Seq<Seq<char>>, i: nat, ln: int) -> bool
    decreases lines.len() - i,
{
    if i >= lines.len() {
        true
    } else {
        let line = lines[i as int];
        if opens_hunk(line) {
            line_numbers_fit(lines, i + 1, hunk_start(line, ln))
        } else if starts_with_char(line, '-') {
            line_numbers_fit(lines, i + 1, ln)
        } else {
            ln + 1 <= usize::MAX && line_numbers_fit(lines, i + 1, ln + 1)
        }
    }
}

/// The map after commit `h` touched, in order, each pending line of file
/// `f`.
pub open spec fn track_all(m: HistoryView, f: Seq<char>, adds: Pending, h: Seq<char>) -> HistoryView
    decreases adds.len(),
{
    if adds.len() == 0 {
        m
    } else {
        let p = adds.last();
        track(track_all(m, f, adds.drop_last(), h), f, p.0 as u32, p.1, h)
    }
}

/// The walk over the diff lines from `i` on: each `@@` line records the
/// added lines of the hunk before it and starts a new hunk at its line
/// number; `-` lines are kept as deleted, `+` lines as added; every line but
/// a `-` one advances the line number. Gives the deleted and added lines of
/// the last hunk and the map.
pub open spec fn walk_diff(
    lines: Seq<Seq<char>>,
    i: nat,
    f: Seq<char>,
    h: Seq<char>,
    dels: Pending,
    adds: Pending,
    ln: int,
    m: HistoryView,
) -> (Pending, Pending, HistoryView)
    decreases lines.len() - i,
{
    if i >= lines.len() {
        (dels, adds, m)
    } else {
        let line = lines[i as int];
        if opens_hunk(line) {
            walk_diff(
                lines,
                i + 1,
                f,
                h,
                Seq::empty(),
                Seq::empty(),
                hunk_start(line, ln),
                track_all(m, f, adds, h),
            )
        } else if starts_with_char(line, '-') {
            walk_diff(lines, i + 1, f, h, dels.push((ln, line.drop_first())), adds, ln, m)
        } else if starts_with_char(line, '+') {
            walk_diff(lines, i + 1, f, h, dels, adds.push((ln, line.drop_first())), ln + 1, m)
        } else {
            walk_diff(lines, i + 1, f, h, dels, adds, ln + 1, m)
        }
    }
}

/// The first added line from `j` on that is not matched yet and lies within
/// three edits of `d`.
pub open spec fn first_close(d: Seq<char>, adds: Pending, matched: Seq<bool>, j: nat) -> Option<nat>
    decreases adds.len() - j,
{
    if j >= adds.len() {
        None
    } else if !matched[j as int] && edit_distance(d, adds[j as int].1) <= 3 {
        Some(j)
    } else {
        first_close(d, adds, matched, j + 1)
    }
}

/// Each deleted line from `k` on, in turn, is matched with the first close
/// added line not matched yet, which commit `h` is then recorded on.
pub open spec fn match_deleted(
    m: HistoryView,
    f: Seq<char>,
    h: Seq<char>,
    dels: Pending,
    k: nat,
    adds: Pending,
    matched: Seq<bool>,
) -> HistoryView
    decreases dels.len() - k,
{
    if k >= dels.len() {
        m
    } else {
        match first_close(dels[k as int].1, adds, matched, 0) {
            Some(j) => match_deleted(
                track(m, f, adds[j as int].0 as u32, adds[j as int].1, h),
                f,
                h,
                dels,
                k + 1,
                adds,
                matched.update(j as int, true),
            ),
            None => match_deleted(m, f, h, dels, k + 1, adds, matched),
        }
    }
}

/// The map after `extract_details_with_tracking` reads the diff `lines` of
/// commit `h` for file `f`.
pub open spec fn extract_spec(h: Seq<char>, lines: Seq<Seq<char>>, f: Seq<char>, m: HistoryView) -> HistoryView {
    let w = walk_diff(lines, 0, f, h, Seq::empty(), Seq::empty(), 0, m);
    match_deleted(
        track_all(w.2, f, w.1, h),
        f,
        h,
        w.0,
        0,
        w.1,
        Seq::new(w.1.len(), |j: int| false),
    )
}

fn track_pending(
    adds: &Vec<(usize, String)>,
    file_path: &str,
    commit_hash: &str,
    map: &mut LineCommitMap,
)
    requires
        old(map).wf(),
    ensures
        final(map).wf(),
        final(map)@ == track_all(old(map)@, file_path@, pending_view(adds@), commit_hash@),
{
    let ghost m0 = map@;
    let ghost pv = pending_view(adds@);
    let mut j: usize = 0;
    assert(pv.take(0) =~= Seq::<(int, Seq<char>)>::empty());
    while j < adds.len()
        invariant
            pv == pending_view(adds@),
            j <= adds@.len(),
            map.wf(),
            map@ == track_all(m0, file_path@, pv.take(j as int), commit_hash@),
        decreases adds@.len() - j,
    {
        let n = adds[j].0;
        let c = adds[j].1.clone();
        track_line_commit(file_path, #[verifier::truncate] (n as u32), c, to_owned_string(commit_hash), map);
        proof {
            assert(pv.take(j + 1).drop_last() =~= pv.take(j as int));
            assert(pv.take(j + 1).last() == pv[j as int]);
        }
        j = j + 1;
    }
    assert(pv.take(j as int) =~= pv);
}

fn hunk_start_exec(line: &str, ln: usize) -> (r: usize)
    ensures
        r == hunk_start(line@, ln as int),
{
    match split_once_str(line, '+') {
        Some((_, after)) => match split_once_str(after.as_str(), ',') {
            Some((start, _)) => {
                let t = trim_str(start.as_str());
                match parse_usize(t.as_str()) {
                    Some(v) => v,
                    None => 0,
                }
            },
            None => ln,
        },
        None => ln,
    }
}

pub proof fn lemma_first_close_bound(d: Seq<char>, adds: Pending, matched: Seq<bool>, j: nat)
    ensures
        first_close(d, adds, matched, j) matches Some(t) ==> j <= t < adds.len(),
    decreases adds.len() - j,
{
    if j < adds.len() {
        lemma_first_close_bound(d, adds, matched, j + 1);
    }
}

fn first_close_exec(d: &String, adds: &Vec<(usize, String)>, matched: &Vec<bool>) -> (r: Option<usize>)
    requires
        matched@.len() == adds@.len(),
    ensures
        match r {
            Some(j) => first_close(d@, pending_view(adds@), matched@, 0) == Some(j as nat),
            None => first_close(d@, pending_view(adds@), matched@, 0) is None,
        },
{
    let ghost pv = pending_view(adds@);
    let mut j: usize = 0;
    while j < adds.len()
        invariant
            pv == pending_view(adds@),
            matched@.len() == adds@.len(),
            j <= adds@.len(),
            first_close(d@, pv, matched@, 0) == first_close(d@, pv, matched@, j as nat),
        decreases adds@.len() - j,
    {
        if !matched[j] && levenshtein(d.as_str(), adds[j].1.as_str()) <= 3 {
            return Some(j);
        }
        j = j + 1;
    }
    None
}

/// Records, for file `file_path`, the lines that commit `commit_hash` added
/// in the diff `diff_lines` (the lines of its hunks, `@@` headers included):
/// the added lines of each hunk are recorded at their new line numbers, and
/// the deleted lines of the last hunk are matched with close added lines
/// (within three edits), which are recorded again (see `extract_spec`).
pub fn extract_details_with_tracking(
    commit_hash: &str,
    diff_lines: Vec<String>,
    file_path: &str,
    line_commit_map: &mut LineCommitMap,
)
    requires
        old(line_commit_map).wf(),
        line_numbers_fit(views(diff_lines@), 0, 0),
    ensures
        final(line_commit_map).wf(),
        final(line_commit_map)@ == extract_spec(
            commit_hash@,
            views(diff_lines@),
            file_path@,
            old(line_commit_map)@,
        ),
{
    let ghost lines = views(diff_lines@);
    let ghost f = file_path@;
    let ghost h = commit_hash@;
    let ghost m0 = line_commit_map@;
    let mut deleted_lines: Vec<(usize, String)> = Vec::new();
    let mut added_lines: Vec<(usize, String)> = Vec::new();
    let mut line_num: usize = 0;
    let mut i: usize = 0;
    assert(pending_view(deleted_lines@) =~= Seq::<(int, Seq<char>)>::empty());
    assert(pending_view(added_lines@) =~= Seq::<(int, Seq<char>)>::empty());
    while i < diff_lines.len()
        invariant
            lines == views(diff_lines@),
            f == file_path@,
            h == commit_hash@,
            i <= diff_lines@.len(),
            line_commit_map.wf(),
            line_numbers_fit(lines, i as nat, line_num as int),
            walk_diff(lines, 0, f, h, Seq::empty(), Seq::empty(), 0, m0) == walk_diff(
                lines,
                i as nat,
                f,
                h,
                pending_view(deleted_lines@),
                pending_view(added_lines@),
                line_num as int,
                line_commit_map@,
            ),
        decreases diff_lines@.len() - i,
    {
        let line = &diff_lines[i];
        assert(line@ == lines[i as int]);
        let v = chars_of(line.as_str());
        if v.len() >= 2 && v[0] == '@' && v[1] == '@' {
            track_pending(&added_lines, file_path, commit_hash, line_commit_map);
            deleted_lines = Vec::new();
            added_lines = Vec::new();
            assert(pending_view(deleted_lines@) =~= Seq::<(int, Seq<char>)>::empty());
            assert(pending_view(added_lines@) =~= Seq::<(int, Seq<char>)>::empty());
            line_num = hunk_start_exec(line.as_str(), line_num);
        } else if v.len() > 0 && v[0] == '-' {
            let rest = substring(line.as_str(), 1, v.len());
            assert(rest@ =~= line@.drop_first());
            let ghost before = pending_view(deleted_lines@);
            deleted_lines.push((line_num, rest));
            assert(pending_view(deleted_lines@) =~= before.push((line_num as int, line@.drop_first())));
        } else if v.len() > 0 && v[0] == '+' {
            let rest = substring(line.as_str(), 1, v.len());
            assert(rest@ =~= line@.drop_first());
            let ghost before = pending_view(added_lines@);
            added_lines.push((line_num, rest));
            assert(pending_view(added_lines@) =~= before.push((line_num as int, line@.drop_first())));
            line_num = line_num + 1;
        } else {
            line_num = line_num + 1;
        }
        i = i + 1;
    }
    track_pending(&added_lines, file_path, commit_hash, line_commit_map);
    let ghost adds = pending_view(added_lines@);
    let ghost dels = pending_view(deleted_lines@);
    let mut matched: Vec<bool> = Vec::new();
    let mut j: usize = 0;
    while j < added_lines.len()
        invariant
            j <= added_lines@.len(),
            matched@ == Seq::new(j as nat, |t: int| false),
        decreases added_lines@.len() - j,
    {
        matched.push(false);
        assert(matched@ =~= Seq::new((j + 1) as nat, |t: int| false));
        j = j + 1;
    }
    let ghost m1 = line_commit_map@;
    let mut k: usize = 0;
    while k < deleted_lines.len()
        invariant
            adds == pending_view(added_lines@),
            dels == pending_view(deleted_lines@),
            f == file_path@,
            h == commit_hash@,
            k <= deleted_lines@.len(),
            matched@.len() == added_lines@.len(),
            line_commit_map.wf(),
            match_deleted(m1, f, h, dels, 0, adds, Seq::new(adds.len(), |t: int| false)) == match_deleted(
                line_commit_map@,
                f,
                h,
                dels,
                k as nat,
                adds,
                matched@,
            ),
        decreases deleted_lines@.len() - k,
    {
        match first_close_exec(&deleted_lines[k].1, &added_lines, &matched) {
            Some(t) => {
                proof {
                    lemma_first_close_bound(deleted_lines@[k as int].1@, adds, matched@, 0);
                }
                let n = added_lines[t].0;
                let c = added_lines[t].1.clone();
                track_line_commit(file_path, #[verifier::truncate] (n as u32), c, to_owned_string(commit_hash), line_commit_map);
                matched.set(t, true);
            },
            None => {},
        }
        k = k + 1;
    }
}

} // verus!
