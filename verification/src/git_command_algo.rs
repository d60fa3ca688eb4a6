//! Reading what git reports: renames, the history of a file's paths, the
//! commits that touched a file, commit descriptions and links; and turning
//! tracked lines into per-line records.
use std::collections::HashMap;
use vstd::prelude::*;
use vstd::string::StringExecFns;
use crate::contextgpt_structs::{AuthorDetailsV2, AuthorDetailsV2View};
use crate::diff_v2::{LineDetail, line_map_view, LineDetailView, clone_strings};
use crate::line_map::{keys_of, keys_of_usize};
use crate::string_map::StringMap;
use crate::text::{
    views, trim, trim_str, lines_of, lines_str, split_char, split_char_str, str_eq, parse_unsigned,
    parse_u32, drop_leading, drop_leading_str, has_prefix, has_suffix, strip_prefix_str,
    strip_suffix_str, to_owned_string, split_str, split_str_exec, join_by, join_strings,
};

verus! {

broadcast use vstd::std_specs::hash::group_hash_axioms;

/// A file renamed in a commit.
#[derive(Debug, Clone)]
pub struct FileRename {
    pub old_path: String,
    pub new_path: String,
    pub commit_hash: String,
    pub similarity: u32,
}

impl PartialEq for FileRename {
    fn eq(&self, other: &Self) -> (r: bool) {
        self.old_path == other.old_path && self.new_path == other.new_path && self.commit_hash
            == other.commit_hash && self.similarity == other.similarity
    }
}

impl vstd::std_specs::cmp::PartialEqSpecImpl for FileRename {
    open spec fn obeys_eq_spec() -> bool {
        true
    }

    open spec fn eq_spec(&self, other: &Self) -> bool {
        self.old_path@ == other.old_path@ && self.new_path@ == other.new_path@ && self.commit_hash@
            == other.commit_hash@ && self.similarity == other.similarity
    }
}

/// What a line of `git show --name-status -M` says of a rename to
/// `file_path`: `R<similarity>\told\tnew`, trimmed, with `new` equal to
/// `file_path`, gives the old path, the new path and the similarity (100
/// where it does not read as a number).
pub open spec fn rename_of_line(line: Seq<char>, file_path: Seq<char>) -> Option<(Seq<char>, Seq<char>, nat)> {
    let l = trim(line);
    if l.len() == 0 || l[0] != 'R' {
        None
    } else {
        let parts = split_char(l, '\t');
        if parts.len() != 3 || parts[2] != file_path {
            None
        } else {
            Some(
                (
                    parts[1],
                    parts[2],
                    match parse_unsigned(drop_leading(parts[0], 'R'), u32::MAX as nat) {
                        Some(n) => n,
                        None => 100,
                    },
                ),
            )
        }
    }
}

/// The first rename to `file_path` among the lines from `i` on.
pub open spec fn first_rename(lines: Seq<Seq<char>>, file_path: Seq<char>, i: nat) -> Option<(Seq<char>, Seq<char>, nat)>
    decreases lines.len() - i,
{
    if i >= lines.len() {
        None
    } else {
        match rename_of_line(lines[i as int], file_path) {
            Some(x) => Some(x),
            None => first_rename(lines, file_path, i + 1),
        }
    }
}

/// `line` is a rename line `R<n>\told\tnew` (once trimmed) that moved the
/// file at `old` to `new`.
pub open spec fn renames(line: Seq<char>, old: Seq<char>, new: Seq<char>) -> bool {
    let l = trim(line);
    let parts = split_char(l, '\t');
    &&& l.len() > 0
    &&& l[0] == 'R'
    &&& parts.len() == 3
    &&& parts[1] == old
    &&& parts[2] == new
}

/// `line` is a rename line whose new path is `new`.
pub open spec fn renames_to(line: Seq<char>, new: Seq<char>) -> bool {
    renames(line, split_char(trim(line), '\t')[1], new)
}

/// The similarity a rename line states: the number after its `R`, or 100
/// where none can be read.
pub open spec fn stated_similarity(line: Seq<char>) -> nat {
    match parse_unsigned(drop_leading(split_char(trim(line), '\t')[0], 'R'), u32::MAX as nat) {
        Some(n) => n,
        None => 100,
    }
}

/// A rename found for `file_path` is a rename to `file_path`: its new path
/// is `file_path`, and it is the first line from `i` on that renames a file
/// to `file_path`, moving the old path found, with the similarity that line
/// states. Where none is found, no line from `i` on renames a file to
/// `file_path`.
pub proof fn lemma_rename_is_to_file(lines: Seq<Seq<char>>, file_path: Seq<char>, i: nat)
    ensures
        first_rename(lines, file_path, i) matches Some((o, n, sim)) ==> n == file_path && exists|k: int|
            i <= k < lines.len() && renames(#[trigger] lines[k], o, file_path) && sim == stated_similarity(lines[k])
                && forall|k2: int| i <= k2 < k ==> !renames_to(#[trigger] lines[k2], file_path),
        first_rename(lines, file_path, i) is None ==> forall|k: int|
            i <= k < lines.len() ==> !renames_to(#[trigger] lines[k], file_path),
    decreases lines.len() - i,
{
    if i < lines.len() {
        lemma_rename_is_to_file(lines, file_path, i + 1);
        match rename_of_line(lines[i as int], file_path) {
            Some((o, n, sim)) => {
                assert(renames(lines[i as int], o, file_path));
                assert(sim == stated_similarity(lines[i as int]));
            },
            None => {
                assert(!renames_to(lines[i as int], file_path));
                match first_rename(lines, file_path, i + 1) {
                    Some((o, n, sim)) => {
                        let k = choose|k: int|
                            i + 1 <= k < lines.len() && renames(#[trigger] lines[k], o, file_path) && sim
                                == stated_similarity(lines[k]) && forall|k2: int|
                                i + 1 <= k2 < k ==> !renames_to(#[trigger] lines[k2], file_path);
                        assert forall|k2: int| i <= k2 < k implies !renames_to(#[trigger] lines[k2], file_path) by {
                            if k2 > i {
                                assert(i + 1 <= k2 < k);
                            }
                        }
                    },
                    None => {},
                }
            },
        }
    }
}

fn rename_of_line_exec(line: &String, file_path: &str) -> (r: Option<(String, String, u32)>)
    ensures
        match r {
            Some((o, n, sim)) => rename_of_line(line@, file_path@) == Some((o@, n@, sim as nat)),
            None => rename_of_line(line@, file_path@) is None,
        },
{
    let l = trim_str(line.as_str());
    let v = crate::text::chars_of(l.as_str());
    if v.len() == 0 || v[0] != 'R' {
        return None;
    }
    let parts = split_char_str(l.as_str(), '\t');
    if parts.len() != 3 {
        return None;
    }
    assert(parts@[2]@ == split_char(l@, '\t')[2]);
    if !str_eq(parts[2].as_str(), file_path) {
        return None;
    }
    let status = drop_leading_str(parts[0].as_str(), 'R');
    let similarity = match parse_u32(status.as_str()) {
        Some(x) => x,
        None => 100,
    };
    Some((parts[1].clone(), parts[2].clone(), similarity))
}

/// Finds, in the output of `git show --name-status -M` for `commit_hash`,
/// the first rename whose new path is `file_path`.
pub fn detect_rename_in_output(output: &str, commit_hash: &str, file_path: &str) -> (r: Option<FileRename>)
    ensures
        match r {
            Some(fr) => first_rename(lines_of(output@), file_path@, 0) == Some(
                (fr.old_path@, fr.new_path@, fr.similarity as nat),
            ) && fr.commit_hash@ == commit_hash@,
            None => first_rename(lines_of(output@), file_path@, 0) is None,
        },
        r matches Some(fr) ==> fr.new_path@ == file_path@ && exists|k: int|
            0 <= k < lines_of(output@).len() && renames(#[trigger] lines_of(output@)[k], fr.old_path@, file_path@)
                && fr.similarity == stated_similarity(lines_of(output@)[k]) && forall|k2: int|
                0 <= k2 < k ==> !renames_to(#[trigger] lines_of(output@)[k2], file_path@),
        r is None ==> forall|k: int|
            0 <= k < lines_of(output@).len() ==> !renames_to(#[trigger] lines_of(output@)[k], file_path@),
{
    proof {
        lemma_rename_is_to_file(lines_of(output@), file_path@, 0);
    }
    let lines = lines_str(output);
    let ghost ls = lines_of(output@);
    let mut i: usize = 0;
    while i < lines.len()
        invariant
            views(lines@) == ls,
            ls == lines_of(output@),
            i <= lines@.len(),
            first_rename(ls, file_path@, 0) == first_rename(ls, file_path@, i as nat),
        decreases lines@.len() - i,
    {
        assert(lines@[i as int]@ == ls[i as int]);
        match rename_of_line_exec(&lines[i], file_path) {
            Some((old_path, new_path, similarity)) => {
                assert(first_rename(ls, file_path@, i as nat) == Some((old_path@, new_path@, similarity as nat)));
                let fr = FileRename { old_path, new_path, commit_hash: to_owned_string(commit_hash), similarity };
                proof {
                    lemma_rename_is_to_file(ls, file_path@, 0);
                }
                return Some(fr);
            },
            None => {},
        }
        i = i + 1;
    }
    None
}

/// A line of `git log --name-status --pretty=format:%h` that names a
/// commit: not empty and not a status line (`R`, `A`, `M` or `D`).
pub open spec fn is_commit_line(l: Seq<char>) -> bool {
    l.len() > 0 && l[0] != 'R' && l[0] != 'A' && l[0] != 'M' && l[0] != 'D'
}

/// One path of a file's history, with the commit that renamed it, if known.
pub type PathStep = (Seq<char>, Option<Seq<char>>);

/// The walk over the log lines from `i` on: a commit line becomes the
/// latest commit; a rename line `R..\told\tnew` whose `new` is the current
/// path records `old`, with the latest commit, and follows `old` from then
/// on.
pub open spec fn history_walk(
    lines: Seq<Seq<char>>,
    i: nat,
    history: Seq<PathStep>,
    current: Seq<char>,
    last: Option<Seq<char>>,
) -> Seq<PathStep>
    decreases lines.len() - i,
{
    if i >= lines.len() {
        history
    } else {
        let l = trim(lines[i as int]);
        if is_commit_line(l) {
            history_walk(lines, i + 1, history, current, Some(l))
        } else if l.len() > 0 && l[0] == 'R' && split_char(l, '\t').len() == 3 && split_char(l, '\t')[2]
            == current {
            let old = split_char(l, '\t')[1];
            history_walk(lines, i + 1, history.push((old, last)), old, last)
        } else {
            history_walk(lines, i + 1, history, current, last)
        }
    }
}

/// The view of a path history.
pub open spec fn steps_view(v: Seq<(String, Option<String>)>) -> Seq<PathStep> {
    v.map_values(|e: (String, Option<String>)| (e.0@, match e.1 {
        Some(c) => Some(c@),
        None => None,
    }))
}

fn clone_opt(o: &Option<String>) -> (r: Option<String>)
    ensures
        match o {
            Some(c) => r matches Some(d) && d@ == c@,
            None => r is None,
        },
{
    match o {
        Some(c) => Some(c.clone()),
        None => None,
    }
}

/// The paths of `file_path` through its renames, oldest first, read from
/// the output of `git log --follow --name-status -M --pretty=format:%h`:
/// each path with the commit that renamed it away, the current path with
/// none.
pub fn rename_history_from_log(output: &str, file_path: String) -> (r: Vec<(String, Option<String>)>)
    ensures
        steps_view(r@) == history_walk(
            lines_of(output@),
            0,
            seq![(file_path@, None::<Seq<char>>)],
            file_path@,
            None,
        ).reverse(),
{
    let lines = lines_str(output);
    let ghost ls = lines_of(output@);
    let ghost fp = file_path@;
    let mut current = file_path.clone();
    let mut history: Vec<(String, Option<String>)> = Vec::new();
    history.push((file_path, None));
    let mut last: Option<String> = None;
    assert(steps_view(history@) =~= seq![(fp, None::<Seq<char>>)]);
    let mut i: usize = 0;
    while i < lines.len()
        invariant
            views(lines@) == ls,
            i <= lines@.len(),
            history_walk(ls, 0, seq![(fp, None::<Seq<char>>)], fp, None) == history_walk(
                ls,
                i as nat,
                steps_view(history@),
                current@,
                match last {
                    Some(c) => Some(c@),
                    None => None,
                },
            ),
        decreases lines@.len() - i,
    {
        assert(lines@[i as int]@ == ls[i as int]);
        let l = trim_str(lines[i].as_str());
        let v = crate::text::chars_of(l.as_str());
        if v.len() > 0 && v[0] != 'R' && v[0] != 'A' && v[0] != 'M' && v[0] != 'D' {
            last = Some(l);
        } else if v.len() > 0 && v[0] == 'R' {
            let parts = split_char_str(l.as_str(), '\t');
            if parts.len() == 3 && str_eq(parts[2].as_str(), current.as_str()) {
                let old = parts[1].clone();
                let step_commit = clone_opt(&last);
                let ghost before = steps_view(history@);
                history.push((old.clone(), step_commit));
                assert(steps_view(history@) =~= before.push(
                    (
                        old@,
                        match last {
                            Some(c) => Some(c@),
                            None => None,
                        },
                    ),
                ));
                current = old;
            }
        }
        i = i + 1;
    }
    let ghost fwd = steps_view(history@);
    let mut out: Vec<(String, Option<String>)> = Vec::new();
    let mut k: usize = history.len();
    assert(steps_view(out@) =~= fwd.reverse().take(0));
    while k > 0
        invariant
            fwd == steps_view(history@),
            k <= history@.len(),
            steps_view(out@) == fwd.reverse().take(history@.len() - k),
        decreases k,
    {
        k = k - 1;
        let e0 = history[k].0.clone();
        let e1 = clone_opt(&history[k].1);
        let ghost before = steps_view(out@);
        out.push((e0, e1));
        assert(steps_view(out@) =~= before.push(fwd[k as int]));
        assert(fwd.reverse().take(history@.len() - k) =~= fwd.reverse().take(history@.len() - k - 1).push(
            fwd[k as int],
        ));
    }
    assert(fwd.reverse().take(history@.len() as int) =~= fwd.reverse());
    out
}

/// The commits of `newest` in the order the keys `ks` give, each appended to
/// `acc` unless already there.
pub open spec fn append_missing(acc: Seq<Seq<char>>, newest: Seq<Seq<char>>, ks: Seq<usize>) -> Seq<Seq<char>>
    decreases ks.len(),
{
    if ks.len() == 0 {
        acc
    } else {
        let prev = append_missing(acc, newest, ks.drop_last());
        let h = newest[ks.last() as int];
        if prev.contains(h) {
            prev
        } else {
            prev.push(h)
        }
    }
}

fn contains_string(v: &Vec<String>, x: &String) -> (r: bool)
    ensures
        r == views(v@).contains(x@),
{
    let mut i: usize = 0;
    while i < v.len()
        invariant
            i <= v@.len(),
            forall|j: int| 0 <= j < i ==> views(v@)[j] != x@,
        decreases v@.len() - i,
    {
        if str_eq(v[i].as_str(), x.as_str()) {
            assert(views(v@)[i as int] == x@);
            return true;
        }
        i = i + 1;
    }
    false
}

/// The commits that touched a file, from two logs of it: `oldest_first`
/// (`git log --follow --reverse`) and `newest_first` (`git log --follow`).
/// The lines of the first come first; then each line of the second not yet
/// among them, in the order of a map keyed by line position. None where the
/// first log is empty.
pub fn merge_commit_logs(oldest_first: &str, newest_first: &str) -> (r: Vec<String>)
    ensures
        lines_of(oldest_first@).len() == 0 ==> r@.len() == 0,
        lines_of(oldest_first@).len() > 0 ==> exists|ks: Seq<usize>|
            {
                &&& ks.no_duplicates()
                &&& ks.to_set() == Set::new(|k: usize| k < lines_of(newest_first@).len())
                &&& views(r@) == append_missing(lines_of(oldest_first@), lines_of(newest_first@), ks)
            },
{
    let mut commits = lines_str(oldest_first);
    if commits.len() == 0 {
        return commits;
    }
    let latest = lines_str(newest_first);
    let ghost newest = lines_of(newest_first@);
    let mut last_commit_map: HashMap<usize, String> = HashMap::new();
    let mut idx: usize = 0;
    while idx < latest.len()
        invariant
            views(latest@) == newest,
            idx <= latest@.len(),
            last_commit_map@.dom() == Set::new(|k: usize| k < idx),
            forall|k: usize| k < idx ==> #[trigger] last_commit_map@[k]@ == newest[k as int],
        decreases latest@.len() - idx,
    {
        let c = latest[idx].clone();
        last_commit_map.insert(idx, c);
        assert(last_commit_map@.dom() =~= Set::new(|k: usize| k < idx + 1));
        idx = idx + 1;
    }
    let ks = keys_of_usize(&last_commit_map);
    let ghost acc0 = views(commits@);
    let mut i: usize = 0;
    assert(ks@.take(0) =~= Seq::<usize>::empty());
    while i < ks.len()
        invariant
            ks@.to_set() == last_commit_map@.dom(),
            last_commit_map@.dom() == Set::new(|k: usize| k < newest.len()),
            forall|k: usize| k < newest.len() ==> #[trigger] last_commit_map@[k]@ == newest[k as int],
            i <= ks@.len(),
            views(commits@) == append_missing(acc0, newest, ks@.take(i as int)),
        decreases ks@.len() - i,
    {
        let k = ks[i];
        assert(ks@.to_set().contains(k)) by {
            assert(ks@[i as int] == k);
        }
        assert(ks@.take(i + 1).drop_last() =~= ks@.take(i as int));
        match last_commit_map.get(&k) {
            Some(h) => {
                if !contains_string(&commits, h) {
                    let ghost before = views(commits@);
                    commits.push(h.clone());
                    assert(views(commits@) =~= before.push(h@));
                }
            },
            None => {
                assert(false);
            },
        }
        i = i + 1;
    }
    assert(ks@.take(i as int) =~= ks@);
    commits
}

/// The link prefix for commits of the GitHub repository behind the remote
/// `url`: `https://github.com/<owner>/<repo>/commit/`, for an SSH or HTTPS
/// remote, without a trailing `.git`.
pub open spec fn commit_base_url_of(url: Seq<char>) -> Option<Seq<char>> {
    let u = trim(url);
    let ssh = "git@github.com:"@;
    let https = "https://github.com/"@;
    let rest = if has_prefix(u, ssh) {
        Some(u.skip(ssh.len() as int))
    } else if has_prefix(u, https) {
        Some(u.skip(https.len() as int))
    } else {
        None
    };
    match rest {
        None => None,
        Some(p) => {
            let path = if has_suffix(p, ".git"@) {
                p.take(p.len() - 4)
            } else {
                p
            };
            Some("https://github.com/"@ + path + "/commit/"@)
        },
    }
}

proof fn lemma_trim_unchanged(u: Seq<char>)
    requires
        u.len() > 0,
        !crate::text::is_ws(u[0]),
        !crate::text::is_ws(u.last()),
    ensures
        trim(u) == u,
{
    assert(crate::text::trim_start(u) == u);
    assert(crate::text::trim_end(u) == u);
}

/// The link does not depend on the form of the remote: for a repository
/// path `p`, the SSH remote `git@github.com:p.git` and the HTTPS remote
/// `https://github.com/p.git` both give `https://github.com/p/commit/`, and
/// so do `git@github.com:p` and `https://github.com/p` where `p` itself
/// does not end in `.git` (nor in whitespace, which a remote loses).
pub proof fn lemma_commit_link_any_remote(p: Seq<char>)
    ensures
        commit_base_url_of("git@github.com:"@ + p + ".git"@) == Some("https://github.com/"@ + p + "/commit/"@),
        commit_base_url_of("https://github.com/"@ + p + ".git"@) == Some("https://github.com/"@ + p + "/commit/"@),
        !has_suffix(p, ".git"@) && (p.len() == 0 || !crate::text::is_ws(p.last())) ==> {
            &&& commit_base_url_of("git@github.com:"@ + p) == Some("https://github.com/"@ + p + "/commit/"@)
            &&& commit_base_url_of("https://github.com/"@ + p) == Some("https://github.com/"@ + p + "/commit/"@)
        },
{
    reveal_strlit("git@github.com:");
    reveal_strlit("https://github.com/");
    reveal_strlit(".git");
    reveal_strlit("/commit/");
    let ssh = "git@github.com:"@;
    let https = "https://github.com/"@;
    let g = ".git"@;
    // The SSH form with `.git`.
    let u1 = ssh + p + g;
    lemma_trim_unchanged(u1);
    assert(u1.take(ssh.len() as int) =~= ssh);
    assert(u1.skip(ssh.len() as int) =~= p + g);
    assert((p + g).skip((p + g).len() - 4) =~= g);
    assert((p + g).take((p + g).len() - 4) =~= p);
    // The HTTPS form with `.git`.
    let u2 = https + p + g;
    lemma_trim_unchanged(u2);
    assert(u2.take(ssh.len() as int)[0] != ssh[0]);
    assert(u2.take(https.len() as int) =~= https);
    assert(u2.skip(https.len() as int) =~= p + g);
    if !has_suffix(p, g) && (p.len() == 0 || !crate::text::is_ws(p.last())) {
        let u3 = ssh + p;
        assert(u3.last() == if p.len() == 0 { ssh.last() } else { p.last() });
        lemma_trim_unchanged(u3);
        assert(u3.take(ssh.len() as int) =~= ssh);
        assert(u3.skip(ssh.len() as int) =~= p);
        let u4 = https + p;
        assert(u4.last() == if p.len() == 0 { https.last() } else { p.last() });
        lemma_trim_unchanged(u4);
        assert(u4.take(ssh.len() as int)[0] != ssh[0]);
        assert(u4.take(https.len() as int) =~= https);
        assert(u4.skip(https.len() as int) =~= p);
    }
}

/// A link is given only for a GitHub remote, SSH or HTTPS, and it is a
/// GitHub commit link: `https://github.com/`, a path, then `/commit/`.
pub proof fn lemma_commit_link_only_github(url: Seq<char>)
    ensures
        commit_base_url_of(url) matches Some(l) ==> {
            &&& has_prefix(trim(url), "git@github.com:"@) || has_prefix(trim(url), "https://github.com/"@)
            &&& has_prefix(l, "https://github.com/"@)
            &&& has_suffix(l, "/commit/"@)
        },
        !has_prefix(trim(url), "git@github.com:"@) && !has_prefix(trim(url), "https://github.com/"@)
            ==> commit_base_url_of(url) is None,
{
    reveal_strlit("https://github.com/");
    reveal_strlit("/commit/");
    match commit_base_url_of(url) {
        Some(l) => {
            let h = "https://github.com/"@;
            let c = "/commit/"@;
            assert(l.take(h.len() as int) =~= h);
            assert(l.skip(l.len() - c.len()) =~= c);
        },
        None => {},
    }
}

/// Builds the link prefix for commits from the output of
/// `git remote get-url origin`.
pub fn commit_base_url(remote_url: &str) -> (r: Option<String>)
    ensures
        match r {
            Some(u) => commit_base_url_of(remote_url@) == Some(u@),
            None => commit_base_url_of(remote_url@) is None,
        },
{
    let url = trim_str(remote_url);
    let path = match strip_prefix_str(url.as_str(), "git@github.com:") {
        Some(p) => p,
        None => match strip_prefix_str(url.as_str(), "https://github.com/") {
            Some(p) => p,
            None => {
                return None;
            },
        },
    };
    let path = match strip_suffix_str(path.as_str(), ".git") {
        Some(p) => {
            proof {
                reveal_strlit(".git");
            }
            p
        },
        None => path,
    };
    let mut out = to_owned_string("https://github.com/");
    out.append(path.as_str());
    out.append("/commit/");
    Some(out)
}

/// One commit's description, from the output of
/// `git show -s --format=%s%n%b%n--AUTHOR--%n%an%n--DATE--%n%cd`: the title
/// (first line of the message), the rest of the message, the author, the
/// date and the link (the base link and the hash, or nothing). `None` where
/// the output does not have exactly one author part and one date part.
pub open spec fn description_of(output: Seq<char>, commit_hash: Seq<char>, base_url: Option<Seq<char>>) -> Option<Seq<Seq<char>>> {
    let sections = split_str(output, "\n--AUTHOR--\n"@);
    if sections.len() != 2 {
        None
    } else {
        let message = trim(sections[0]);
        let ls = lines_of(message);
        let title = if ls.len() > 0 {
            trim(ls[0])
        } else {
            Seq::empty()
        };
        let description = trim(join_by(if ls.len() > 0 { ls.drop_first() } else { ls }, "\n"@));
        let parts = split_str(sections[1], "\n--DATE--\n"@);
        if parts.len() != 2 {
            None
        } else {
            let url = match base_url {
                Some(b) => b + commit_hash,
                None => Seq::empty(),
            };
            Some(seq![title, description, trim(parts[0]), trim(parts[1]), url])
        }
    }
}

/// Reads one commit's description (see `description_of`).
pub fn parse_commit_description(output: &str, commit_hash: &str, base_url: &Option<String>) -> (r: Option<Vec<String>>)
    ensures
        match r {
            Some(v) => description_of(
                output@,
                commit_hash@,
                match base_url {
                    Some(b) => Some(b@),
                    None => None,
                },
            ) == Some(views(v@)),
            None => description_of(
                output@,
                commit_hash@,
                match base_url {
                    Some(b) => Some(b@),
                    None => None,
                },
            ) is None,
        },
{
    proof {
        reveal_strlit("\n--AUTHOR--\n");
        reveal_strlit("\n--DATE--\n");
    }
    let sections = split_str_exec(output, "\n--AUTHOR--\n");
    if sections.len() != 2 {
        return None;
    }
    let message = trim_str(sections[0].as_str());
    let ls = lines_str(message.as_str());
    let title = if ls.len() > 0 {
        trim_str(ls[0].as_str())
    } else {
        String::new()
    };
    let mut rest: Vec<String> = Vec::new();
    let mut i: usize = 1;
    assert(views(rest@) =~= views(ls@).skip(1).take(0));
    while i < ls.len()
        invariant
            1 <= i <= ls@.len() || (i == 1 && ls@.len() == 0),
            views(rest@) == views(ls@).skip(1).take(i - 1),
        decreases ls@.len() - i,
    {
        let ghost before = views(rest@);
        rest.push(ls[i].clone());
        assert(views(rest@) =~= before.push(views(ls@)[i as int]));
        assert(views(ls@).skip(1).take(i as int) =~= views(ls@).skip(1).take(i - 1).push(views(ls@)[i as int]));
        i = i + 1;
    }
    proof {
        if ls@.len() > 0 {
            assert(views(ls@).skip(1).take(ls@.len() - 1) =~= views(ls@).drop_first());
        } else {
            assert(views(rest@) =~= views(ls@));
        }
    }
    let joined = join_strings(&rest, "\n");
    let description = trim_str(joined.as_str());
    let parts = split_str_exec(sections[1].as_str(), "\n--DATE--\n");
    if parts.len() != 2 {
        return None;
    }
    let author_name = trim_str(parts[0].as_str());
    let commit_datetime = trim_str(parts[1].as_str());
    let commit_url = match base_url {
        Some(b) => {
            let mut u = b.clone();
            u.append(commit_hash);
            u
        },
        None => String::new(),
    };
    let mut out: Vec<String> = Vec::new();
    out.push(title);
    out.push(description);
    out.push(author_name);
    out.push(commit_datetime);
    out.push(commit_url);
    assert(views(out@) =~= seq![title@, description@, author_name@, commit_datetime@, commit_url@]);
    Some(out)
}

/// The descriptions of the commits `hashes` from `i` on, each commit once:
/// `shows` holds, for each commit that `git show` answered, its output
/// where that was text; a commit it answered counts as seen, one it did not
/// is tried again where it recurs.
pub open spec fn descriptions_from(
    hashes: Seq<Seq<char>>,
    shows: Map<Seq<char>, Option<Seq<char>>>,
    base_url: Option<Seq<char>>,
    i: nat,
    seen: Set<Seq<char>>,
) -> Seq<Seq<Seq<char>>>
    decreases hashes.len() - i,
{
    if i >= hashes.len() {
        Seq::empty()
    } else {
        let h = hashes[i as int];
        if seen.contains(h) || !shows.contains_key(h) {
            descriptions_from(hashes, shows, base_url, i + 1, seen)
        } else {
            let here = match shows[h] {
                Some(out) => match description_of(out, h, base_url) {
                    Some(d) => seq![d],
                    None => Seq::empty(),
                },
                None => Seq::empty(),
            };
            here + descriptions_from(hashes, shows, base_url, i + 1, seen.insert(h))
        }
    }
}

/// The view of a list of descriptions.
pub open spec fn descriptions_view(v: Seq<Vec<String>>) -> Seq<Seq<Seq<char>>> {
    v.map_values(|d: Vec<String>| views(d@))
}

/// The descriptions of `commit_hashes`, each commit once, from the answers
/// of `git show` in `shows` (see `descriptions_from`).
pub fn get_commit_descriptions(
    commit_hashes: Vec<String>,
    shows: &StringMap<Option<String>>,
    base_url: &Option<String>,
) -> (r: Vec<Vec<String>>)
    requires
        shows.wf(),
    ensures
        descriptions_view(r@) == descriptions_from(
            views(commit_hashes@),
            shows.view_map(),
            match base_url {
                Some(b) => Some(b@),
                None => None,
            },
            0,
            Set::empty(),
        ),
{
    let ghost hs = views(commit_hashes@);
    let ghost sm = shows.view_map();
    let ghost bu = match base_url {
        Some(b) => Some(b@),
        None => None::<Seq<char>>,
    };
    let mut output_vec: Vec<Vec<String>> = Vec::new();
    let mut visited: Vec<String> = Vec::new();
    let mut i: usize = 0;
    assert(descriptions_view(output_vec@) =~= Seq::<Seq<Seq<char>>>::empty());
    assert(views(visited@).to_set() =~= Set::<Seq<char>>::empty());
    assert(Seq::<Seq<Seq<char>>>::empty() + descriptions_from(hs, sm, bu, 0, Set::empty()) =~= descriptions_from(
        hs,
        sm,
        bu,
        0,
        Set::empty(),
    ));
    while i < commit_hashes.len()
        invariant
            hs == views(commit_hashes@),
            sm == shows.view_map(),
            shows.wf(),
            bu == match base_url {
                Some(b) => Some(b@),
                None => None::<Seq<char>>,
            },
            i <= commit_hashes@.len(),
            descriptions_from(hs, sm, bu, 0, Set::empty()) == descriptions_view(output_vec@)
                + descriptions_from(hs, sm, bu, i as nat, views(visited@).to_set()),
        decreases commit_hashes@.len() - i,
    {
        let h = &commit_hashes[i];
        assert(h@ == hs[i as int]);
        if contains_string(&visited, h) {
            i = i + 1;
            continue;
        }
        match shows.get(h.as_str()) {
            None => {},
            Some(answer) => {
                let ghost seen0 = views(visited@).to_set();
                let ghost before = descriptions_view(output_vec@);
                let ghost vis0 = views(visited@);
                visited.push(h.clone());
                assert(views(visited@) =~= vis0.push(h@));
                assert(views(visited@).to_set() =~= seen0.insert(h@)) by {
                    assert forall|x: Seq<char>| views(visited@).to_set().contains(x) <==> seen0.contains(x) || x == h@ by {
                        crate::line_map::lemma_contains_push(vis0, x, h@);
                    }
                }
                match answer {
                    Some(out) => {
                        assert(answer.deep_view() == Some(out@));
                        match parse_commit_description(out.as_str(), h.as_str(), base_url) {
                            Some(d) => {
                                output_vec.push(d);
                                assert(descriptions_view(output_vec@) =~= before.push(views(d@)));
                                assert(before.push(views(d@)) + descriptions_from(hs, sm, bu, (i + 1) as nat, seen0.insert(h@))
                                    =~= before + (seq![views(d@)] + descriptions_from(hs, sm, bu, (i + 1) as nat, seen0.insert(h@))));
                            },
                            None => {
                                assert(Seq::<Seq<Seq<char>>>::empty() + descriptions_from(hs, sm, bu, (i + 1) as nat, seen0.insert(h@))
                                    =~= descriptions_from(hs, sm, bu, (i + 1) as nat, seen0.insert(h@)));
                            },
                        }
                    },
                    None => {
                        assert(answer.deep_view() == None::<Seq<char>>);
                        assert(Seq::<Seq<Seq<char>>>::empty() + descriptions_from(hs, sm, bu, (i + 1) as nat, seen0.insert(h@))
                            =~= descriptions_from(hs, sm, bu, (i + 1) as nat, seen0.insert(h@)));
                    },
                }
            },
        }
        i = i + 1;
    }
    assert(descriptions_view(output_vec@) + Seq::<Seq<Seq<char>>>::empty() =~= descriptions_view(output_vec@));
    output_vec
}

/// The latest commit of a file from `git log -1 --pretty=format:%h`: the
/// trimmed output, where not empty.
pub fn latest_commit_from_output(output: &str) -> (r: Option<String>)
    ensures
        match r {
            Some(c) => trim(output@).len() > 0 && c@ == trim(output@),
            None => trim(output@).len() == 0,
        },
{
    let c = trim_str(output);
    if c.unicode_len() > 0 {
        Some(c)
    } else {
        None
    }
}

/// The record of each tracked line: its number, the file, and the commits
/// on its first record.
pub open spec fn line_record(k: u32, path: Seq<char>, v: Seq<LineDetailView>) -> AuthorDetailsV2View {
    (k as usize, path, v[0].1, Seq::empty())
}

/// One record per tracked line of `map`, for the file `origin_file_path`.
pub fn author_details_from_lines(
    map: &HashMap<u32, Vec<LineDetail>>,
    origin_file_path: &String,
) -> (r: HashMap<u32, AuthorDetailsV2>)
    requires
        forall|k: u32| #[trigger] line_map_view(map@).contains_key(k) ==> line_map_view(map@)[k].len() >= 1,
    ensures
        r@.dom() == map@.dom(),
        forall|k: u32|
            #[trigger] r@.contains_key(k) ==> r@[k]@ == line_record(k, origin_file_path@, line_map_view(map@)[k]),
{
    let ks = keys_of(map);
    let mut out: HashMap<u32, AuthorDetailsV2> = HashMap::new();
    let mut i: usize = 0;
    while i < ks.len()
        invariant
            ks@.to_set() == map@.dom(),
            ks@.no_duplicates(),
            i <= ks@.len(),
            forall|k: u32| #[trigger] line_map_view(map@).contains_key(k) ==> line_map_view(map@)[k].len() >= 1,
            out@.dom() == ks@.take(i as int).to_set(),
            forall|k: u32|
                #[trigger] out@.contains_key(k) ==> out@[k]@ == line_record(k, origin_file_path@, line_map_view(map@)[k]),
        decreases ks@.len() - i,
    {
        let k = ks[i];
        assert(ks@.to_set().contains(k)) by {
            assert(ks@[i as int] == k);
        }
        match map.get(&k) {
            Some(v) => {
                assert(line_map_view(map@).contains_key(k));
                assert(v@.map_values(|d: LineDetail| d@) == line_map_view(map@)[k]);
                assert(v@.map_values(|d: LineDetail| d@).len() == v@.len());
                let hashes = clone_strings(&v[0].commit_hashes);
                assert(line_map_view(map@)[k][0] == v@[0]@);
                let no_names: Vec<String> = Vec::new();
                let d = AuthorDetailsV2 {
                    origin_file_path: origin_file_path.clone(),
                    line_number: k as usize,
                    commit_hashes: hashes,
                    author_full_name: no_names,
                };
                assert(views(no_names@) =~= Seq::<Seq<char>>::empty());
                out.insert(k, d);
                assert(ks@.take(i + 1) =~= ks@.take(i as int).push(k));
                assert(out@.dom() =~= ks@.take(i + 1).to_set()) by {
                    assert forall|x: u32| out@.dom().contains(x) <==> ks@.take(i + 1).to_set().contains(x) by {
                        crate::line_map::lemma_contains_push(ks@.take(i as int), x, k);
                    }
                }
            },
            None => {
                assert(false);
            },
        }
        i = i + 1;
    }
    assert(ks@.take(i as int) =~= ks@);
    out
}

} // verus!
