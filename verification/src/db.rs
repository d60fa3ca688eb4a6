//! The sharded database of line histories: the commits recorded for each
//! line of the file being indexed, the shard files that hold each file, and
//! the commit at which each file was last indexed.
use std::collections::HashMap;
use vstd::prelude::*;
use vstd::string::StringExecFns;
use crate::config::MAX_ITEMS_IN_EACH_DB_FILE;
use crate::contextgpt_structs::{AuthorDetailsV2, AuthorDetailsV2View};
use crate::diff_v2::clone_strings;
use crate::line_map::{keys_of, keys_of_usize};
use crate::string_map::StringMap;
use crate::text::{views, decimal, decimal_string, to_owned_string};

verus! {

broadcast use vstd::std_specs::hash::group_hash_axioms;

/// The commits recorded for each line number.
pub type LineData = Map<usize, Seq<Seq<char>>>;

/// The view of the line data of a database.
pub open spec fn line_data(m: Map<usize, Vec<String>>) -> LineData {
    m.map_values(|v: Vec<String>| views(v@))
}

/// The index of the shard files of each file path.
pub type Mapping = Map<Seq<char>, Seq<u32>>;

/// The database of one workspace.
#[derive(Clone)]
pub struct DB {
    pub index: u32,
    pub folder_path: String,
    pub curr_items: u32,
    pub mapping_file_name: String,
    pub current_data_v2: HashMap<usize, Vec<String>>,
    pub db_file_path: String,
    pub mapping_file_path: String,
    pub mapping_data: StringMap<Vec<u32>>,
    pub curr_file_path: String,
    pub workspace_path: String,
    pub indexing_file_name: String,
}

impl Default for DB {
    fn default() -> (r: Self)
        ensures
            r.index == 0,
            r.curr_items == 0,
            r.folder_path@.len() == 0,
            r.mapping_file_name@.len() == 0,
            r.db_file_path@.len() == 0,
            r.mapping_file_path@.len() == 0,
            r.curr_file_path@.len() == 0,
            r.workspace_path@.len() == 0,
            r.indexing_file_name@.len() == 0,
            r.current_data_v2@ == Map::<usize, Vec<String>>::empty(),
            r.mapping_data.wf(),
            r.mapping_data.view_map() == Map::<Seq<char>, Seq<u32>>::empty(),
    {
        DB {
            index: 0,
            folder_path: String::new(),
            curr_items: 0,
            mapping_file_name: String::new(),
            current_data_v2: HashMap::new(),
            db_file_path: String::new(),
            mapping_file_path: String::new(),
            mapping_data: StringMap::new(),
            curr_file_path: String::new(),
            workspace_path: String::new(),
            indexing_file_name: String::new(),
        }
    }
}

/// The two databases name the same folder and files (the shard file
/// aside).
pub open spec fn same_names(a: DB, b: DB) -> bool {
    &&& a.folder_path == b.folder_path
    &&& a.mapping_file_name == b.mapping_file_name
    &&& a.mapping_file_path == b.mapping_file_path
    &&& a.workspace_path == b.workspace_path
    &&& a.indexing_file_name == b.indexing_file_name
}

/// The key under which a mapping may name the next shard index to use.
pub open spec fn last_used_key() -> Seq<char> {
    "last_used_index"@
}

/// The first index listed under `last_used_index`, if any.
pub open spec fn last_used(m: Mapping) -> Option<u32> {
    if m.contains_key(last_used_key()) && m[last_used_key()].len() > 0 {
        Some(m[last_used_key()][0])
    } else {
        None
    }
}

/// `x` is the largest shard index listed in `m`, or 0 where none is.
pub open spec fn is_max_index(m: Mapping, x: nat) -> bool {
    &&& forall|k: Seq<char>, j: int| m.contains_key(k) && 0 <= j < m[k].len() ==> #[trigger] m[k][j] <= x
    &&& (x == 0 || exists|k: Seq<char>, j: int| m.contains_key(k) && 0 <= j < m[k].len() && #[trigger] m[k][j] == x)
}

/// Every listed shard index is below `u32::MAX`.
pub open spec fn indices_below_max(m: Mapping) -> bool {
    forall|k: Seq<char>, j: int| m.contains_key(k) && 0 <= j < m[k].len() ==> #[trigger] m[k][j] < u32::MAX
}

/// The sum of the commits recorded for line `ln`, extended by `hashes`.
pub open spec fn append_line(d: LineData, ln: usize, hashes: Seq<Seq<char>>) -> LineData {
    d.insert(
        ln,
        (if d.contains_key(ln) {
            d[ln]
        } else {
            Seq::empty()
        }) + hashes,
    )
}

/// The line data after each record in `details`, in order, extends the
/// commits of its line.
pub open spec fn append_details(d: LineData, details: Seq<AuthorDetailsV2View>) -> LineData
    decreases details.len(),
{
    if details.len() == 0 {
        d
    } else {
        let x = details.last();
        append_line(append_details(d, details.drop_last()), x.0, x.2)
    }
}

impl DB {
    /// The index for a file's first shard: the first index listed under
    /// `last_used_index`, or else one more than the largest index listed.
    pub fn get_available_index(&self, mapping_json: &StringMap<Vec<u32>>) -> (r: u32)
        requires
            mapping_json.wf(),
            last_used(mapping_json.view_map()) is None ==> indices_below_max(mapping_json.view_map()),
        ensures
            match last_used(mapping_json.view_map()) {
                Some(x) => r == x,
                None => r >= 1 && is_max_index(mapping_json.view_map(), (r - 1) as nat),
            },
    {
        let ghost m = mapping_json.view_map();
        match mapping_json.get("last_used_index") {
            Some(v) => {
                if v.len() > 0 {
                    return v[0];
                }
            },
            None => {},
        }
        proof {
            mapping_json.lemma_key_order();
        }
        let ghost ks = mapping_json.key_order();
        let n = mapping_json.len();
        let mut max_index: u32 = 0;
        let mut i: usize = 0;
        while i < n
            invariant
                m == mapping_json.view_map(),
                mapping_json.wf(),
                ks == mapping_json.key_order(),
                n == ks.len(),
                i <= n,
                indices_below_max(m),
                forall|a: int, j: int|
                    0 <= a < i && 0 <= j < m[ks[a]].len() ==> #[trigger] m[ks[a]][j] <= max_index,
                max_index == 0 || exists|k: Seq<char>, j: int|
                    m.contains_key(k) && 0 <= j < m[k].len() && #[trigger] m[k][j] == max_index,
            decreases n - i,
        {
            let (key, values) = mapping_json.entry_at(i);
            let mut j: usize = 0;
            while j < values.len()
                invariant
                    m == mapping_json.view_map(),
                    m.contains_key(key@),
                    key@ == ks[i as int],
                    values.deep_view() == m[key@],
                    j <= values@.len(),
                    indices_below_max(m),
                    forall|a: int, t: int|
                        0 <= a < i && 0 <= t < m[ks[a]].len() ==> #[trigger] m[ks[a]][t] <= max_index,
                    forall|t: int| 0 <= t < j ==> #[trigger] m[key@][t] <= max_index,
                    max_index == 0 || exists|k: Seq<char>, t: int|
                        m.contains_key(k) && 0 <= t < m[k].len() && #[trigger] m[k][t] == max_index,
                decreases values@.len() - j,
            {
                assert(values.deep_view()[j as int] == values@[j as int]);
                if values[j] > max_index {
                    max_index = values[j];
                    assert(m[key@][j as int] == max_index);
                }
                j = j + 1;
            }
            assert(values.deep_view().len() == values@.len());
            i = i + 1;
        }
        proof {
            assert forall|k: Seq<char>, j: int| m.contains_key(k) && 0 <= j < m[k].len() implies #[trigger] m[k][j] <= max_index by {
                assert(ks.to_set().contains(k));
                let a = choose|a: int| 0 <= a < ks.len() && ks[a] == k;
                assert(m[ks[a]][j] <= max_index);
            }
            if max_index > 0 {
                let (k, j) = choose|k: Seq<char>, j: int| m.contains_key(k) && 0 <= j < m[k].len() && #[trigger] m[k][j] == max_index;
                assert(m[k][j] < u32::MAX);
            }
        }
        max_index + 1
    }

    /// Whether the current shard holds as many items as a shard may.
    pub fn _is_limit_crossed(&self) -> (r: bool)
        ensures
            r == (self.curr_items >= MAX_ITEMS_IN_EACH_DB_FILE),
    {
        self.curr_items >= MAX_ITEMS_IN_EACH_DB_FILE
    }

    /// Adds the commits of each record of `all_data` to the line data, under
    /// the record's line number, taking the records in the map's own order;
    /// counts the records and remembers the file they belong to.
    pub fn append_to_db(
        &mut self,
        configured_file_path: &String,
        _start_line_number: usize,
        all_data: HashMap<u32, AuthorDetailsV2>,
    )
        requires
            old(self).curr_items + (all_data@.len() as u32) <= u32::MAX,
        ensures
            final(self).curr_file_path@ == configured_file_path@,
            final(self).index == old(self).index,
            final(self).mapping_data == old(self).mapping_data,
            same_names(*final(self), *old(self)),
            final(self).db_file_path == old(self).db_file_path,
            all_data@.len() == 0 ==> {
                &&& final(self).curr_items == old(self).curr_items
                &&& final(self).current_data_v2@ == old(self).current_data_v2@
            },
            all_data@.len() > 0 ==> {
                &&& final(self).curr_items == old(self).curr_items + (all_data@.len() as u32)
                &&& exists|ks: Seq<u32>|
                    {
                        &&& ks.no_duplicates()
                        &&& ks.to_set() == all_data@.dom()
                        &&& line_data(final(self).current_data_v2@) == append_details(
                            line_data(old(self).current_data_v2@),
                            ks.map_values(|k: u32| all_data@[k]@),
                        )
                    }
            },
    {
        self.curr_file_path = configured_file_path.clone();
        if all_data.is_empty() {
            return;
        }
        self.curr_items = self.curr_items + (#[verifier::truncate] (all_data.len() as u32));
        let ghost d0 = line_data(self.current_data_v2@);
        let ks = keys_of(&all_data);
        let ghost details = ks@.map_values(|k: u32| all_data@[k]@);
        let mut i: usize = 0;
        assert(details.take(0) =~= Seq::<AuthorDetailsV2View>::empty());
        while i < ks.len()
            invariant
                ks@.to_set() == all_data@.dom(),
                details == ks@.map_values(|k: u32| all_data@[k]@),
                i <= ks@.len(),
                self.curr_file_path@ == configured_file_path@,
                self.index == old(self).index,
                self.mapping_data == old(self).mapping_data,
                same_names(*self, *old(self)),
                self.db_file_path == old(self).db_file_path,
                self.curr_items == old(self).curr_items + (all_data@.len() as u32),
                d0 == line_data(old(self).current_data_v2@),
                line_data(self.current_data_v2@) == append_details(d0, details.take(i as int)),
            decreases ks@.len() - i,
        {
            let k = ks[i];
            assert(ks@.contains(k)) by {
                assert(ks@[i as int] == k);
            }
            let detail = match all_data.get(&k) {
                Some(d) => d,
                None => {
                    assert(false);
                    return;
                },
            };
            let ln = detail.line_number;
            let added = clone_strings(&detail.commit_hashes);
            let ghost d1 = line_data(self.current_data_v2@);
            let mut existing = match self.current_data_v2.remove(&ln) {
                Some(v) => v,
                None => Vec::new(),
            };
            let ghost prefix = views(existing@);
            assert(prefix == (if d1.contains_key(ln) { d1[ln] } else { Seq::<Seq<char>>::empty() }));
            let mut j: usize = 0;
            while j < added.len()
                invariant
                    j <= added@.len(),
                    views(existing@) == prefix + views(added@).take(j as int),
                decreases added@.len() - j,
            {
                let ghost before = views(existing@);
                existing.push(added[j].clone());
                assert(views(existing@) =~= before.push(views(added@)[j as int]));
                assert(views(added@).take(j + 1) =~= views(added@).take(j as int).push(views(added@)[j as int]));
                j = j + 1;
            }
            assert(views(added@).take(j as int) =~= views(added@));
            let ghost dm = self.current_data_v2@;
            self.current_data_v2.insert(ln, existing);
            proof {
                assert(details[i as int] == all_data@[k]@);
                assert(details.take(i + 1).drop_last() =~= details.take(i as int));
                assert(line_data(self.current_data_v2@) =~= append_line(d1, ln, views(added@)));
            }
            i = i + 1;
        }
        proof {
            assert(details.take(i as int) =~= details);
            assert(ks@.no_duplicates());
        }
    }
}


/// `k` is the smallest line above `i` that has data.
pub open spec fn is_next_line(d: LineData, i: usize, k: usize) -> bool {
    &&& d.contains_key(k)
    &&& k > i
    &&& forall|k2: usize| #[trigger] d.contains_key(k2) && k2 > i ==> k <= k2
}

/// The line whose commits stand for line `i`: `i` itself where it has data,
/// else the nearest line above it that has data.
pub open spec fn covering_line(d: LineData, i: usize) -> Option<usize> {
    if d.contains_key(i) {
        Some(i)
    } else if exists|k: usize| is_next_line(d, i, k) {
        Some(choose|k: usize| is_next_line(d, i, k))
    } else {
        None
    }
}

/// The commits that stand for the lines `lo..hi`, line by line.
pub open spec fn covering_hashes(d: LineData, lo: int, hi: int) -> Seq<Seq<char>>
    decreases hi - lo,
{
    if hi <= lo {
        Seq::empty()
    } else {
        covering_hashes(d, lo, hi - 1) + match covering_line(d, (hi - 1) as usize) {
            Some(k) => d[k],
            None => Seq::empty(),
        }
    }
}

/// The lines of `lo..hi` that nothing covers.
pub open spec fn uncovered_lines(d: LineData, lo: int, hi: int) -> Seq<u32>
    decreases hi - lo,
{
    if hi <= lo {
        Seq::empty()
    } else {
        uncovered_lines(d, lo, hi - 1) + if covering_line(d, (hi - 1) as usize) is None {
            seq![((hi - 1) as usize) as u32]
        } else {
            Seq::empty()
        }
    }
}

/// Every commit of every line of `lo..hi` that has data of its own is
/// reported, and a line reported as uncovered lies in `lo..hi` and has no
/// data of its own.
pub proof fn lemma_covering_reports_own_data(d: LineData, lo: int, hi: int)
    requires
        0 <= lo,
    ensures
        forall|i: usize, j: int|
            lo <= i < hi && d.contains_key(i) && 0 <= j < d[i].len() ==> covering_hashes(d, lo, hi).contains(
                #[trigger] d[i][j],
            ),
        forall|t: int|
            #![trigger uncovered_lines(d, lo, hi)[t]]
            hi <= u32::MAX + 1 && 0 <= t < uncovered_lines(d, lo, hi).len() ==> lo <= uncovered_lines(d, lo, hi)[t] < hi
                && !d.contains_key(uncovered_lines(d, lo, hi)[t] as usize),
    decreases hi - lo,
{
    if hi > lo {
        lemma_covering_reports_own_data(d, lo, hi - 1);
        let a = covering_hashes(d, lo, hi - 1);
        let r = covering_hashes(d, lo, hi);
        let last = (hi - 1) as usize;
        let b = match covering_line(d, last) {
            Some(k) => d[k],
            None => Seq::empty(),
        };
        assert(r == a + b);
        assert forall|i: usize, j: int| lo <= i < hi && d.contains_key(i) && 0 <= j < d[i].len() implies r.contains(
            #[trigger] d[i][j],
        ) by {
            if i < hi - 1 {
                assert(a.contains(d[i][j]));
                let k = choose|k: int| 0 <= k < a.len() && a[k] == d[i][j];
                assert(r[k] == a[k]);
            } else {
                assert(i == last);
                assert(covering_line(d, last) == Some(last));
                assert(r[a.len() + j] == b[j]);
            }
        }
        let ua = uncovered_lines(d, lo, hi - 1);
        let u = uncovered_lines(d, lo, hi);
        assert forall|t: int|
            #![trigger uncovered_lines(d, lo, hi)[t]]
            hi <= u32::MAX + 1 && 0 <= t < uncovered_lines(d, lo, hi).len() implies lo <= uncovered_lines(d, lo, hi)[t] < hi
                && !d.contains_key(uncovered_lines(d, lo, hi)[t] as usize) by {
            if t < ua.len() {
                assert(u[t] == ua[t]);
            } else {
                assert(covering_line(d, last) is None);
                assert(u[t] == last as u32);
            }
        }
    }
}

/// The lines of `lo..hi` that have no data of their own.
pub open spec fn lines_without_data(d: LineData, lo: int, hi: int) -> Seq<u32>
    decreases hi - lo,
{
    if hi <= lo {
        Seq::empty()
    } else {
        lines_without_data(d, lo, hi - 1) + if !d.contains_key((hi - 1) as usize) {
            seq![((hi - 1) as usize) as u32]
        } else {
            Seq::empty()
        }
    }
}

/// The files that commit `h` changed, as far as `files` says.
pub open spec fn files_of(files: Map<Seq<char>, Seq<Seq<char>>>, h: Seq<char>) -> Seq<Seq<char>> {
    if files.contains_key(h) {
        files[h]
    } else {
        Seq::empty()
    }
}

/// The files that the commits `hs` changed, commit by commit.
pub open spec fn files_of_all(files: Map<Seq<char>, Seq<Seq<char>>>, hs: Seq<Seq<char>>) -> Seq<Seq<char>>
    decreases hs.len(),
{
    if hs.len() == 0 {
        Seq::empty()
    } else {
        files_of_all(files, hs.drop_last()) + files_of(files, hs.last())
    }
}

/// The files changed by the commits of each line of `lo..hi` that has data.
pub open spec fn exact_paths(d: LineData, files: Map<Seq<char>, Seq<Seq<char>>>, lo: int, hi: int) -> Seq<Seq<char>>
    decreases hi - lo,
{
    if hi <= lo {
        Seq::empty()
    } else {
        exact_paths(d, files, lo, hi - 1) + if d.contains_key((hi - 1) as usize) {
            files_of_all(files, d[(hi - 1) as usize])
        } else {
            Seq::empty()
        }
    }
}

/// How many times `p` occurs in `s`.
pub open spec fn count_of(s: Seq<Seq<char>>, p: Seq<char>) -> nat
    decreases s.len(),
{
    if s.len() == 0 {
        0
    } else {
        count_of(s.drop_last(), p) + if s.last() == p {
            1nat
        } else {
            0nat
        }
    }
}

/// Each path of `s` with the number of times it occurs there.
pub open spec fn tallies(s: Seq<Seq<char>>) -> Map<Seq<char>, usize> {
    Map::new(|p: Seq<char>| s.contains(p), |p: Seq<char>| count_of(s, p) as usize)
}

proof fn lemma_count_of_bound(s: Seq<Seq<char>>, p: Seq<char>)
    ensures
        count_of(s, p) <= s.len(),
        s.contains(p) <==> count_of(s, p) > 0,
    decreases s.len(),
{
    if s.len() > 0 {
        lemma_count_of_bound(s.drop_last(), p);
        crate::line_map::lemma_contains_push(s.drop_last(), p, s.last());
        assert(s.drop_last().push(s.last()) =~= s);
    }
}

proof fn lemma_tallies_push(s: Seq<Seq<char>>, p: Seq<char>)
    requires
        s.len() + 1 <= usize::MAX,
    ensures
        tallies(s.push(p)) == tallies(s).insert(
            p,
            (if tallies(s).contains_key(p) {
                tallies(s)[p] + 1
            } else {
                1
            }) as usize,
        ),
{
    let t = s.push(p);
    assert(t.drop_last() =~= s);
    lemma_count_of_bound(s, p);
    assert forall|q: Seq<char>| t.contains(q) <==> (s.contains(q) || q == p) by {
        crate::line_map::lemma_contains_push(s, q, p);
    }
    assert forall|q: Seq<char>| q != p implies count_of(t, q) == count_of(s, q) by {}
    assert(tallies(t) =~= tallies(s).insert(
        p,
        (if tallies(s).contains_key(p) {
            tallies(s)[p] + 1
        } else {
            1
        }) as usize,
    ));
}

/// Counts one more occurrence of `path`, `acc` being the paths counted so
/// far.
fn tally_path(counter: &mut StringMap<usize>, path: &String, Ghost(acc): Ghost<Seq<Seq<char>>>)
    requires
        old(counter).wf(),
        old(counter).view_map() == tallies(acc),
        acc.len() + 1 <= usize::MAX,
    ensures
        final(counter).wf(),
        final(counter).view_map() == tallies(acc.push(path@)),
{
    proof {
        lemma_tallies_push(acc, path@);
        lemma_count_of_bound(acc, path@);
    }
    let n: usize = match counter.get(path.as_str()) {
        Some(c) => *c,
        None => 0,
    };
    counter.insert(path.clone(), n + 1);
}

/// Counts the files that the commits `hashes` changed, `acc` being the
/// paths counted so far.
fn tally_commits(
    counter: &mut StringMap<usize>,
    hashes: &Vec<String>,
    files_changed: &StringMap<Vec<String>>,
    Ghost(acc): Ghost<Seq<Seq<char>>>,
)
    requires
        old(counter).wf(),
        files_changed.wf(),
        old(counter).view_map() == tallies(acc),
        acc.len() + files_of_all(files_changed.view_map(), views(hashes@)).len() <= usize::MAX,
    ensures
        final(counter).wf(),
        final(counter).view_map() == tallies(acc + files_of_all(files_changed.view_map(), views(hashes@))),
{
    let ghost files = files_changed.view_map();
    let ghost hs = views(hashes@);
    let mut j: usize = 0;
    assert(hs.take(0) =~= Seq::<Seq<char>>::empty());
    assert(acc + files_of_all(files, hs.take(0)) =~= acc);
    while j < hashes.len()
        invariant
            counter.wf(),
            files_changed.wf(),
            files == files_changed.view_map(),
            hs == views(hashes@),
            j <= hashes@.len(),
            acc.len() + files_of_all(files, hs).len() <= usize::MAX,
            counter.view_map() == tallies(acc + files_of_all(files, hs.take(j as int))),
        decreases hashes@.len() - j,
    {
        proof {
            assert(hs.take(j + 1).drop_last() =~= hs.take(j as int));
            lemma_files_of_all_prefix(files, hs, j + 1);
        }
        let ghost base = acc + files_of_all(files, hs.take(j as int));
        match files_changed.get(hashes[j].as_str()) {
            Some(fs) => {
                let mut t: usize = 0;
                assert(fs.deep_view() =~= views(fs@));
                assert(base + views(fs@).take(0) =~= base);
                while t < fs.len()
                    invariant
                        counter.wf(),
                        fs.deep_view() == files[hs[j as int]],
                        fs.deep_view() =~= views(fs@),
                        t <= fs@.len(),
                        base.len() + fs@.len() <= usize::MAX,
                        counter.view_map() == tallies(base + views(fs@).take(t as int)),
                    decreases fs@.len() - t,
                {
                    tally_path(counter, &fs[t], Ghost(base + views(fs@).take(t as int)));
                    assert(base + views(fs@).take(t + 1) =~= (base + views(fs@).take(t as int)).push(fs@[t as int]@));
                    t = t + 1;
                }
                assert(views(fs@).take(t as int) =~= views(fs@));
                assert(acc + files_of_all(files, hs.take(j + 1)) =~= base + views(fs@));
            },
            None => {
                assert(acc + files_of_all(files, hs.take(j + 1)) =~= base);
            },
        }
        j = j + 1;
    }
    assert(hs.take(j as int) =~= hs);
}

proof fn lemma_files_of_all_prefix(files: Map<Seq<char>, Seq<Seq<char>>>, hs: Seq<Seq<char>>, j: int)
    requires
        0 <= j <= hs.len(),
    ensures
        files_of_all(files, hs.take(j)).len() <= files_of_all(files, hs).len(),
    decreases hs.len() - j,
{
    if j < hs.len() {
        lemma_files_of_all_prefix(files, hs, j + 1);
        assert(hs.take(j + 1).drop_last() =~= hs.take(j));
    } else {
        assert(hs.take(j) =~= hs);
    }
}

/// The nearest line above `i` among the keys `ks`, if any.
fn next_line(ks: &Vec<usize>, i: usize, Ghost(d): Ghost<LineData>) -> (r: Option<usize>)
    requires
        ks@.to_set() == d.dom(),
    ensures
        match r {
            Some(k) => is_next_line(d, i, k),
            None => forall|k: usize| #[trigger] d.contains_key(k) ==> k <= i,
        },
{
    let mut best: Option<usize> = None;
    let mut t: usize = 0;
    while t < ks.len()
        invariant
            ks@.to_set() == d.dom(),
            t <= ks@.len(),
            match best {
                Some(b) => d.contains_key(b) && b > i && forall|a: int| 0 <= a < t && #[trigger] ks@[a] > i ==> b <= ks@[a],
                None => forall|a: int| 0 <= a < t ==> #[trigger] ks@[a] <= i,
            },
        decreases ks@.len() - t,
    {
        let k = ks[t];
        assert(ks@.to_set().contains(k)) by {
            assert(ks@[t as int] == k);
        }
        if k > i {
            match best {
                Some(b) => {
                    if k < b {
                        best = Some(k);
                    }
                },
                None => {
                    best = Some(k);
                },
            }
        }
        t = t + 1;
    }
    proof {
        assert forall|k: usize| #[trigger] d.contains_key(k) implies exists|a: int| 0 <= a < ks@.len() && ks@[a] == k by {
            assert(ks@.to_set().contains(k));
        }
    }
    best
}

impl DB {
    /// For each line of `start..=end`, the commits of the line itself, or of
    /// the nearest line above it that has data; also the lines that neither
    /// covers.
    pub fn raw_exists_and_return(
        &mut self,
        start_line_number: &usize,
        end_line_number: &usize,
    ) -> (r: (Vec<String>, Vec<u32>))
        ensures
            *final(self) == *old(self),
            views(r.0@) == covering_hashes(
                line_data(old(self).current_data_v2@),
                *start_line_number as int,
                *end_line_number + 1,
            ),
            r.1@ == uncovered_lines(
                line_data(old(self).current_data_v2@),
                *start_line_number as int,
                *end_line_number + 1,
            ),
            forall|i: usize, j: int|
                *start_line_number <= i <= *end_line_number && old(self).current_data_v2@.contains_key(i) && 0 <= j
                    < old(self).current_data_v2@[i]@.len() ==> views(r.0@).contains(
                    #[trigger] old(self).current_data_v2@[i]@[j]@,
                ),
    {
        let ghost d = line_data(self.current_data_v2@);
        proof {
            lemma_covering_reports_own_data(d, *start_line_number as int, *end_line_number + 1);
            assert forall|i: usize, j: int|
                *start_line_number <= i <= *end_line_number && self.current_data_v2@.contains_key(i) && 0 <= j
                    < self.current_data_v2@[i]@.len() implies #[trigger] self.current_data_v2@[i]@[j]@ == d[i][j] by {}
        }
        let ks = keys_of_usize(&self.current_data_v2);
        assert(ks@.to_set() == d.dom());
        let start = *start_line_number;
        let end = *end_line_number;
        let mut all_commit_hashes: Vec<String> = Vec::new();
        let mut uncovered_indices: Vec<u32> = Vec::new();
        let mut i: u128 = start as u128;
        if start > end {
            assert(views(all_commit_hashes@) =~= covering_hashes(d, start as int, end + 1));
            assert(uncovered_indices@ =~= uncovered_lines(d, start as int, end + 1));
            return (all_commit_hashes, uncovered_indices);
        }
        assert(views(all_commit_hashes@) =~= Seq::<Seq<char>>::empty());
        while i <= end as u128
            invariant
                d == line_data(self.current_data_v2@),
                ks@.to_set() == d.dom(),
                start <= i <= end + 1,
                views(all_commit_hashes@) == covering_hashes(d, start as int, i as int),
                uncovered_indices@ == uncovered_lines(d, start as int, i as int),
            decreases end + 1 - i,
        {
            let iu = i as usize;
            let cover: Option<usize> = if self.current_data_v2.contains_key(&iu) {
                Some(iu)
            } else {
                let found = next_line(&ks, iu, Ghost(d));
                proof {
                    match found {
                        Some(k) => {
                            assert(exists|k: usize| is_next_line(d, iu, k));
                            let c = choose|k: usize| is_next_line(d, iu, k);
                            assert(c <= k && k <= c);
                        },
                        None => {
                            assert(!exists|k: usize| is_next_line(d, iu, k));
                        },
                    }
                }
                found
            };
            assert(cover == covering_line(d, iu));
            match cover {
                Some(k) => {
                    match self.current_data_v2.get(&k) {
                        Some(hs) => {
                            let ghost before = views(all_commit_hashes@);
                            let mut j: usize = 0;
                            while j < hs.len()
                                invariant
                                    j <= hs@.len(),
                                    views(all_commit_hashes@) == before + views(hs@).take(j as int),
                                decreases hs@.len() - j,
                            {
                                let ghost b2 = views(all_commit_hashes@);
                                all_commit_hashes.push(hs[j].clone());
                                assert(views(all_commit_hashes@) =~= b2.push(hs@[j as int]@));
                                assert(views(hs@).take(j + 1) =~= views(hs@).take(j as int).push(hs@[j as int]@));
                                j = j + 1;
                            }
                            assert(views(hs@).take(j as int) =~= views(hs@));
                            assert(views(hs@) == d[k]);
                        },
                        None => {
                            assert(false);
                        },
                    }
                    assert(uncovered_indices@ =~= uncovered_lines(d, start as int, i + 1));
                },
                None => {
                    uncovered_indices.push(#[verifier::truncate] (iu as u32));
                    assert(views(all_commit_hashes@) =~= covering_hashes(d, start as int, i + 1));
                },
            }
            i = i + 1;
        }
        (all_commit_hashes, uncovered_indices)
    }

    /// For each line of `start..=end` that has data, counts the files that
    /// its commits changed, as `files_changed` lists them per commit (a
    /// commit it does not list changed none); also gives the lines without
    /// data.
    pub fn exists_and_return(
        &mut self,
        start_line_number: &usize,
        end_line_number: &usize,
        files_changed: &StringMap<Vec<String>>,
    ) -> (r: (StringMap<usize>, Vec<u32>))
        requires
            files_changed.wf(),
            exact_paths(
                line_data(old(self).current_data_v2@),
                files_changed.view_map(),
                *start_line_number as int,
                *end_line_number + 1,
            ).len() <= usize::MAX,
        ensures
            *final(self) == *old(self),
            r.0.wf(),
            r.0.view_map() == tallies(
                exact_paths(
                    line_data(old(self).current_data_v2@),
                    files_changed.view_map(),
                    *start_line_number as int,
                    *end_line_number + 1,
                ),
            ),
            r.1@ == lines_without_data(
                line_data(old(self).current_data_v2@),
                *start_line_number as int,
                *end_line_number + 1,
            ),
    {
        let ghost d = line_data(self.current_data_v2@);
        let ghost files = files_changed.view_map();
        let start = *start_line_number;
        let end = *end_line_number;
        let mut counter: StringMap<usize> = StringMap::new();
        let mut uncovered_indices: Vec<u32> = Vec::new();
        assert(counter.view_map() =~= tallies(Seq::<Seq<char>>::empty()));
        if start > end {
            assert(uncovered_indices@ =~= lines_without_data(d, start as int, end + 1));
            assert(exact_paths(d, files, start as int, end + 1) =~= Seq::<Seq<char>>::empty());
            return (counter, uncovered_indices);
        }
        let mut i: u128 = start as u128;
        while i <= end as u128
            invariant
                d == line_data(self.current_data_v2@),
                files == files_changed.view_map(),
                files_changed.wf(),
                counter.wf(),
                start <= i <= end + 1,
                exact_paths(d, files, start as int, end + 1).len() <= usize::MAX,
                counter.view_map() == tallies(exact_paths(d, files, start as int, i as int)),
                uncovered_indices@ == lines_without_data(d, start as int, i as int),
            decreases end + 1 - i,
        {
            let iu = i as usize;
            proof {
                lemma_exact_paths_prefix(d, files, start as int, i + 1, end + 1);
            }
            match self.current_data_v2.get(&iu) {
                Some(hs) => {
                    assert(views(hs@) == d[iu]);
                    tally_commits(&mut counter, hs, files_changed, Ghost(exact_paths(d, files, start as int, i as int)));
                },
                None => {
                    uncovered_indices.push(#[verifier::truncate] (iu as u32));
                    assert(exact_paths(d, files, start as int, i + 1) =~= exact_paths(d, files, start as int, i as int));
                },
            }
            i = i + 1;
        }
        (counter, uncovered_indices)
    }
}

proof fn lemma_exact_paths_prefix(
    d: LineData,
    files: Map<Seq<char>, Seq<Seq<char>>>,
    lo: int,
    mid: int,
    hi: int,
)
    requires
        lo <= mid <= hi,
    ensures
        exact_paths(d, files, lo, mid).len() <= exact_paths(d, files, lo, hi).len(),
    decreases hi - mid,
{
    if mid < hi {
        lemma_exact_paths_prefix(d, files, lo, mid, hi - 1);
    }
}

/// The commits of the records whose line lies in `start..=end`, record by
/// record.
pub open spec fn hashes_in_range_of(details: Seq<AuthorDetailsV2View>, start: usize, end: usize) -> Seq<Seq<char>>
    decreases details.len(),
{
    if details.len() == 0 {
        Seq::empty()
    } else {
        let x = details.last();
        hashes_in_range_of(details.drop_last(), start, end) + if start <= x.0 && x.0 <= end {
            x.2
        } else {
            Seq::empty()
        }
    }
}

/// `x` is a commit of some record of `details` whose line lies in
/// `start..=end`.
pub open spec fn commit_of_range(details: Seq<AuthorDetailsV2View>, start: usize, end: usize, x: Seq<char>) -> bool {
    exists|i: int, j: int|
        0 <= i < details.len() && start <= details[i].0 <= end && 0 <= j < details[i].2.len() && #[trigger] details[i].2[j]
            == x
}

/// Every commit of every record whose line lies in `start..=end` is
/// reported, and every reported commit is a commit of such a record.
pub proof fn lemma_hashes_in_range(details: Seq<AuthorDetailsV2View>, start: usize, end: usize)
    ensures
        forall|i: int, j: int|
            0 <= i < details.len() && start <= details[i].0 <= end && 0 <= j < details[i].2.len()
                ==> hashes_in_range_of(details, start, end).contains(#[trigger] details[i].2[j]),
        forall|t: int|
            0 <= t < hashes_in_range_of(details, start, end).len() ==> commit_of_range(
                details,
                start,
                end,
                #[trigger] hashes_in_range_of(details, start, end)[t],
            ),
    decreases details.len(),
{
    if details.len() > 0 {
        let init = details.drop_last();
        let x = details.last();
        let n = details.len() - 1;
        lemma_hashes_in_range(init, start, end);
        let a = hashes_in_range_of(init, start, end);
        let b: Seq<Seq<char>> = if start <= x.0 && x.0 <= end {
            x.2
        } else {
            Seq::empty()
        };
        let r = hashes_in_range_of(details, start, end);
        assert(r == a + b);
        assert forall|i: int, j: int|
            0 <= i < details.len() && start <= details[i].0 <= end && 0 <= j < details[i].2.len() implies r.contains(
                #[trigger] details[i].2[j],
            ) by {
            if i < n {
                assert(init[i] == details[i]);
                assert(a.contains(init[i].2[j]));
                let k = choose|k: int| 0 <= k < a.len() && a[k] == init[i].2[j];
                assert(r[k] == a[k]);
            } else {
                assert(r[a.len() + j] == b[j]);
            }
        }
        assert forall|t: int| 0 <= t < r.len() implies commit_of_range(details, start, end, #[trigger] r[t]) by {
            if t < a.len() {
                assert(r[t] == a[t]);
                assert(commit_of_range(init, start, end, a[t]));
                let (i, j) = choose|i: int, j: int|
                    0 <= i < init.len() && start <= init[i].0 <= end && 0 <= j < init[i].2.len()
                        && #[trigger] init[i].2[j] == a[t];
                assert(init[i] == details[i]);
                assert(details[i].2[j] == r[t]);
            } else {
                let j = t - a.len();
                assert(r[t] == b[j]);
                assert(b == x.2 && start <= x.0 <= end);
                assert(details[n] == x);
                assert(details[n].2[j] == r[t]);
            }
        }
    }
}

/// `x` is a commit of some record of `output` whose line lies in
/// `start..=end`.
pub open spec fn record_commit_in_range(output: Map<u32, AuthorDetailsV2>, start: usize, end: usize, x: Seq<char>) -> bool {
    exists|k: u32, j: int|
        output.contains_key(k) && start <= output[k].line_number <= end && 0 <= j < output[k].commit_hashes@.len()
            && #[trigger] output[k].commit_hashes@[j]@ == x
}

/// The commits of the records of `output` whose line lies in `start..=end`,
/// taking the records in the map's own order.
pub fn hashes_in_range(output: &HashMap<u32, AuthorDetailsV2>, start: usize, end: usize) -> (r: Vec<String>)
    ensures
        exists|ks: Seq<u32>|
            {
                &&& ks.no_duplicates()
                &&& ks.to_set() == output@.dom()
                &&& views(r@) == hashes_in_range_of(ks.map_values(|k: u32| output@[k]@), start, end)
            },
        forall|k: u32, j: int|
            output@.contains_key(k) && start <= output@[k].line_number <= end && 0 <= j
                < output@[k].commit_hashes@.len() ==> views(r@).contains(#[trigger] output@[k].commit_hashes@[j]@),
        forall|t: int| 0 <= t < r@.len() ==> record_commit_in_range(output@, start, end, #[trigger] r@[t]@),
{
    let ks = keys_of(output);
    let ghost details = ks@.map_values(|k: u32| output@[k]@);
    let mut out: Vec<String> = Vec::new();
    let mut i: usize = 0;
    assert(details.take(0) =~= Seq::<AuthorDetailsV2View>::empty());
    assert(views(out@) =~= Seq::<Seq<char>>::empty());
    while i < ks.len()
        invariant
            ks@.to_set() == output@.dom(),
            details == ks@.map_values(|k: u32| output@[k]@),
            i <= ks@.len(),
            views(out@) == hashes_in_range_of(details.take(i as int), start, end),
        decreases ks@.len() - i,
    {
        let k = ks[i];
        assert(ks@.contains(k)) by {
            assert(ks@[i as int] == k);
        }
        assert(details.take(i + 1).drop_last() =~= details.take(i as int));
        match output.get(&k) {
            Some(detail) => {
                assert(details[i as int] == detail@);
                if start <= detail.line_number && detail.line_number <= end {
                    let ghost before = views(out@);
                    let mut j: usize = 0;
                    while j < detail.commit_hashes.len()
                        invariant
                            j <= detail.commit_hashes@.len(),
                            views(out@) == before + views(detail.commit_hashes@).take(j as int),
                        decreases detail.commit_hashes@.len() - j,
                    {
                        let ghost b2 = views(out@);
                        out.push(detail.commit_hashes[j].clone());
                        assert(views(out@) =~= b2.push(detail.commit_hashes@[j as int]@));
                        assert(views(detail.commit_hashes@).take(j + 1) =~= views(detail.commit_hashes@).take(
                            j as int,
                        ).push(detail.commit_hashes@[j as int]@));
                        j = j + 1;
                    }
                    assert(views(detail.commit_hashes@).take(j as int) =~= views(detail.commit_hashes@));
                } else {
                    assert(views(out@) =~= hashes_in_range_of(details.take(i + 1), start, end));
                }
            },
            None => {
                assert(false);
            },
        }
        i = i + 1;
    }
    assert(details.take(i as int) =~= details);
    assert(ks@.no_duplicates());
    proof {
        lemma_hashes_in_range(details, start, end);
        assert forall|k: u32, j: int|
            output@.contains_key(k) && start <= output@[k].line_number <= end && 0 <= j
                < output@[k].commit_hashes@.len() implies views(out@).contains(
                #[trigger] output@[k].commit_hashes@[j]@,
            ) by {
            assert(ks@.to_set().contains(k));
            let idx = choose|idx: int| 0 <= idx < ks@.len() && ks@[idx] == k;
            assert(details[idx] == output@[k]@);
            assert(details[idx].2[j] == output@[k].commit_hashes@[j]@);
        }
        assert forall|t: int| 0 <= t < out@.len() implies record_commit_in_range(
            output@,
            start,
            end,
            #[trigger] out@[t]@,
        ) by {
            assert(views(out@)[t] == out@[t]@);
            assert(commit_of_range(details, start, end, views(out@)[t]));
            let (a, j) = choose|a: int, j: int|
                0 <= a < details.len() && start <= details[a].0 <= end && 0 <= j < details[a].2.len()
                    && #[trigger] details[a].2[j] == views(out@)[t];
            let k = ks@[a];
            assert(ks@.to_set().contains(k));
            assert(details[a] == output@[k]@);
            assert(output@[k].commit_hashes@[j]@ == details[a].2[j]);
        }
    }
    out
}

/// Counts the files that the commits `commit_hashes` changed, as
/// `files_changed` lists them per commit.
pub fn count_changed_files(commit_hashes: &Vec<String>, files_changed: &StringMap<Vec<String>>) -> (r: StringMap<usize>)
    requires
        files_changed.wf(),
        files_of_all(files_changed.view_map(), views(commit_hashes@)).len() <= usize::MAX,
    ensures
        r.wf(),
        r.view_map() == tallies(files_of_all(files_changed.view_map(), views(commit_hashes@))),
{
    let mut counter: StringMap<usize> = StringMap::new();
    assert(counter.view_map() =~= tallies(Seq::<Seq<char>>::empty()));
    tally_commits(&mut counter, commit_hashes, files_changed, Ghost(Seq::empty()));
    assert(Seq::<Seq<char>>::empty() + files_of_all(files_changed.view_map(), views(commit_hashes@)) =~= files_of_all(
        files_changed.view_map(),
        views(commit_hashes@),
    ));
    counter
}


/// The path of shard `index` under the database folder `folder`:
/// `<folder>/<index>.json`.
pub open spec fn shard_path(folder: Seq<char>, index: nat) -> Seq<char> {
    folder + "/"@ + decimal(index) + ".json"@
}

/// `<folder>/<index>.json`.
pub fn shard_file_path(folder: &str, index: u32) -> (r: String)
    ensures
        r@ == shard_path(folder@, index as nat),
{
    let mut p = to_owned_string(folder);
    p.append("/");
    let d = decimal_string(index);
    p.append(d.as_str());
    p.append(".json");
    p
}

/// The shard indices of `path` after one more shard, `index`, is recorded
/// for it.
pub open spec fn with_shard(m: Mapping, path: Seq<char>, index: u32) -> Mapping {
    m.insert(
        path,
        (if m.contains_key(path) {
            m[path]
        } else {
            Seq::empty()
        }).push(index),
    )
}

/// The commits at which `path` was indexed, after one more, `commit`.
pub open spec fn with_indexed_commit(
    m: Map<Seq<char>, Seq<Seq<char>>>,
    path: Seq<char>,
    commit: Seq<char>,
) -> Map<Seq<char>, Seq<Seq<char>>> {
    m.insert(
        path,
        (if m.contains_key(path) {
            m[path]
        } else {
            Seq::empty()
        }).push(commit),
    )
}

/// Where a file stands against its latest commit.
#[derive(Debug, Clone, PartialEq, Eq)]
pub enum IndexState {
    /// No indexing of the file is recorded.
    NotRecorded,
    /// The file was last indexed at its latest commit, or at no commit.
    Current,
    /// The file was last indexed at this commit, not its latest one.
    StaleSince(String),
}

impl DB {
    /// Looks `curr_file_path` up in the loaded mapping: its shard indices
    /// where it has some. A file the mapping lacks gets the available index
    /// as its first shard, which the mapping records and `db_file_path`
    /// names; then, as for an empty mapping, there is nothing to return.
    pub fn find_index(&mut self, curr_file_path: &str) -> (r: Option<Vec<u32>>)
        requires
            old(self).mapping_data.wf(),
            last_used(old(self).mapping_data.view_map()) is None ==> indices_below_max(
                old(self).mapping_data.view_map(),
            ),
        ensures
            final(self).mapping_data.wf(),
            same_names(*final(self), *old(self)),
            final(self).curr_items == old(self).curr_items,
            final(self).current_data_v2 == old(self).current_data_v2,
            final(self).curr_file_path == old(self).curr_file_path,
            old(self).mapping_data.view_map().dom().len() == 0 ==> r is None && *final(self) == *old(self),
            old(self).mapping_data.view_map().contains_key(curr_file_path@) ==> *final(self) == *old(self) && (
            r matches Some(v) && v@ == old(self).mapping_data.view_map()[curr_file_path@]),
            old(self).mapping_data.view_map().dom().len() > 0 && !old(self).mapping_data.view_map().contains_key(
                curr_file_path@,
            ) ==> {
                &&& r is None
                &&& match last_used(old(self).mapping_data.view_map()) {
                    Some(x) => final(self).index == x,
                    None => final(self).index >= 1 && is_max_index(
                        old(self).mapping_data.view_map(),
                        (final(self).index - 1) as nat,
                    ),
                }
                &&& final(self).db_file_path@ == shard_path(old(self).folder_path@, final(self).index as nat)
                &&& final(self).mapping_data.view_map() == old(self).mapping_data.view_map().insert(
                    curr_file_path@,
                    seq![final(self).index],
                )
            },
    {
        if self.mapping_data.is_empty() {
            return None;
        }
        match self.mapping_data.get(curr_file_path) {
            Some(v) => {
                let c = v.clone();
                assert(c@ == v@);
                assert(v.deep_view() =~= v@);
                return Some(c);
            },
            None => {},
        }
        let index = self.get_available_index(&self.mapping_data);
        self.index = index;
        self.db_file_path = shard_file_path(self.folder_path.as_str(), index);
        let mut indices: Vec<u32> = Vec::new();
        indices.push(index);
        assert(indices.deep_view() =~= seq![index]);
        self.mapping_data.insert(to_owned_string(curr_file_path), indices);
        None
    }

    /// The bookkeeping of storing the line data as a shard: where there is
    /// data, the mapping records the current shard index for the current
    /// file, the index moves on, and the stored shard's index is returned.
    pub fn begin_store(&mut self) -> (r: Option<u32>)
        requires
            old(self).mapping_data.wf(),
            old(self).current_data_v2@.dom().len() > 0 ==> old(self).index < u32::MAX,
        ensures
            final(self).mapping_data.wf(),
            old(self).current_data_v2@.dom().len() == 0 ==> r is None && *final(self) == *old(self),
            old(self).current_data_v2@.dom().len() > 0 ==> {
                &&& r == Some(old(self).index)
                &&& final(self).index == old(self).index + 1
                &&& final(self).mapping_data.view_map() == with_shard(
                    old(self).mapping_data.view_map(),
                    old(self).curr_file_path@,
                    old(self).index,
                )
                &&& final(self).current_data_v2 == old(self).current_data_v2
                &&& final(self).curr_items == old(self).curr_items
                &&& final(self).curr_file_path == old(self).curr_file_path
                &&& same_names(*final(self), *old(self))
                &&& final(self).db_file_path == old(self).db_file_path
            },
    {
        if self.current_data_v2.is_empty() {
            return None;
        }
        let shard = self.index;
        let key = self.curr_file_path.clone();
        let ghost m0 = self.mapping_data.view_map();
        let mut indices: Vec<u32> = Vec::new();
        match self.mapping_data.remove(key.as_str()) {
            Some(v) => {
                indices = v;
            },
            None => {},
        }
        assert(indices.deep_view() =~= indices@);
        assert(indices@ == (if m0.contains_key(key@) {
            m0[key@]
        } else {
            Seq::<u32>::empty()
        }));
        let ghost before = indices@;
        indices.push(shard);
        assert(indices.deep_view() =~= before.push(shard));
        self.mapping_data.insert(key, indices);
        proof {
            assert(self.mapping_data.view_map() =~= with_shard(
                old(self).mapping_data.view_map(),
                old(self).curr_file_path@,
                old(self).index,
            ));
        }
        self.index = self.index + 1;
        Some(shard)
    }

    /// After a shard is stored: the line data and the item count start
    /// afresh.
    pub fn end_store(&mut self)
        ensures
            final(self).current_data_v2@ == Map::<usize, Vec<String>>::empty(),
            final(self).curr_items == 0,
            final(self).index == old(self).index,
            final(self).mapping_data == old(self).mapping_data,
            final(self).curr_file_path == old(self).curr_file_path,
            same_names(*final(self), *old(self)),
            final(self).db_file_path == old(self).db_file_path,
    {
        self.current_data_v2 = HashMap::new();
        self.curr_items = 0;
    }

    /// Records in the indexing metadata that `file_path` was indexed at
    /// `commit_hash`.
    pub fn record_indexed_commit(metadata: &mut StringMap<Vec<String>>, file_path: &String, commit_hash: &str)
        requires
            old(metadata).wf(),
        ensures
            final(metadata).wf(),
            final(metadata).view_map() == with_indexed_commit(old(metadata).view_map(), file_path@, commit_hash@),
    {
        let ghost m0 = metadata.view_map();
        let mut commits: Vec<String> = Vec::new();
        match metadata.remove(file_path.as_str()) {
            Some(v) => {
                commits = v;
            },
            None => {
                assert(commits.deep_view() =~= Seq::<Seq<char>>::empty());
            },
        }
        let ghost before = commits.deep_view();
        commits.push(to_owned_string(commit_hash));
        assert(commits.deep_view() =~= before.push(commit_hash@));
        metadata.insert(file_path.clone(), commits);
        assert(metadata.view_map() =~= with_indexed_commit(old(metadata).view_map(), file_path@, commit_hash@));
    }

    /// Where `file_path` stands against its latest commit `recent_commit`,
    /// by the indexing metadata.
    pub fn index_state(metadata: &StringMap<Vec<String>>, file_path: &str, recent_commit: &str) -> (r: IndexState)
        requires
            metadata.wf(),
        ensures
            ({
                let m = metadata.view_map();
                match r {
                    IndexState::NotRecorded => !m.contains_key(file_path@),
                    IndexState::Current => m.contains_key(file_path@) && (m[file_path@].len() == 0
                        || m[file_path@].last() == recent_commit@),
                    IndexState::StaleSince(c) => m.contains_key(file_path@) && m[file_path@].len() > 0
                        && m[file_path@].last() != recent_commit@ && c@ == m[file_path@].last(),
                }
            }),
    {
        match metadata.get(file_path) {
            None => IndexState::NotRecorded,
            Some(commits) => {
                let n = commits.len();
                if n == 0 {
                    IndexState::Current
                } else {
                    assert(commits.deep_view()[n - 1] == commits@[n - 1]@);
                    if crate::text::str_eq(commits[n - 1].as_str(), recent_commit) {
                        IndexState::Current
                    } else {
                        IndexState::StaleSince(commits[n - 1].clone())
                    }
                }
            },
        }
    }
}

} // verus!
