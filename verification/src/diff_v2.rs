//! Line-history maps driven by the hunk headers of `git show --unified=0`.
use std::collections::HashMap;
use vstd::prelude::*;
use crate::hunk::{hunk_range_fields, hunk_range_positions, run_value, run_value_upto};
use crate::text::{views, str_eq, chars_of, trim, lines_of, lines_str, trim_str, to_owned_string};
use crate::hunk_fit::reorder_fits;

verus! {

broadcast use vstd::std_specs::hash::group_hash_axioms;

/// One tracked line: its latest content and the commits that touched it.
#[derive(Debug, Clone)]
pub struct LineDetail {
    pub content: String,
    pub commit_hashes: Vec<String>,
}

/// The view of a tracked line: `(content, commit hashes)`.
pub type LineDetailView = (Seq<char>, Seq<Seq<char>>);

impl View for LineDetail {
    type V = LineDetailView;

    open spec fn view(&self) -> LineDetailView {
        (self.content@, views(self.commit_hashes@))
    }
}

#[derive(Debug, Clone, Copy, PartialEq, Eq, Structural)]
pub enum ChangeType {
    Added,
    Deleted,
    Modified,
}

/// One side of a hunk: where it starts, how many lines it spans, and the
/// lines it holds.
#[derive(Debug, Clone, PartialEq, Eq)]
pub struct LineChange {
    pub start_line_number: u32,
    pub change_count: u32,
    pub change_type: ChangeType,
    pub changed_content: Vec<String>,
}

impl Default for LineChange {
    fn default() -> (r: Self)
        ensures
            r.start_line_number == 0,
            r.change_count == 0,
            r.change_type == ChangeType::Added,
            r.changed_content@.len() == 0,
    {
        LineChange {
            start_line_number: 0,
            change_count: 0,
            change_type: ChangeType::Added,
            changed_content: Vec::new(),
        }
    }
}

/// The shapes of change that a hunk range can describe.
#[derive(PartialEq, Eq, Debug, Clone, Copy, Structural)]
pub enum DiffCases {
    FewLinesReplacedWithSingleLine,
    FewLinesReplacedWithFewLines,
    SingleLineDeleted,
    FewLinesDeleted,
    SingleLineReplacedWithAnotherSingleLine,
    NewLinesAdded,
    NoneFound,
}

/// The shape of a hunk that removes `minus` lines and adds `plus` lines.
pub open spec fn classify(minus: nat, plus: nat) -> DiffCases {
    if plus == 1 && minus > 1 {
        DiffCases::FewLinesReplacedWithSingleLine
    } else if minus > 1 && plus > 1 {
        DiffCases::FewLinesReplacedWithFewLines
    } else if minus == 1 && plus == 0 {
        DiffCases::SingleLineDeleted
    } else if plus == 0 && minus > 1 {
        DiffCases::FewLinesDeleted
    } else if minus == 1 && plus == 1 {
        DiffCases::SingleLineReplacedWithAnotherSingleLine
    } else if minus == 0 && plus > 0 {
        DiffCases::NewLinesAdded
    } else {
        DiffCases::NoneFound
    }
}

/// The count of one side of a hunk range as `categorize_diff` reads it: 1
/// when the range gives none, and 1 when the number does not fit a `usize`.
pub open spec fn count_or_one(s: Seq<char>, c: Option<(int, int)>) -> nat {
    match c {
        None => 1,
        Some(r) => if run_value(s, r) <= usize::MAX {
            run_value(s, r)
        } else {
            1
        },
    }
}

/// What `categorize_diff` gives for the hunk range `s`.
pub open spec fn categorize_spec(s: Seq<char>) -> Option<DiffCases> {
    match hunk_range_fields(s) {
        None => None,
        Some((_, c1, _, c3)) => Some(classify(count_or_one(s, c1), count_or_one(s, c3))),
    }
}

fn count_or_one_exec(v: &Vec<char>, c: Option<(usize, usize)>) -> (r: usize)
    requires
        c matches Some(x) ==> crate::hunk::digit_run(v@, x.0 as int, x.1 as int),
    ensures
        r == count_or_one(
            v@,
            match c {
                None => None,
                Some(x) => Some((x.0 as int, x.1 as int)),
            },
        ),
{
    match c {
        None => 1,
        Some((a, b)) => match run_value_upto(v, a, b, usize::MAX) {
            Some(x) => x,
            None => 1,
        },
    }
}

fn classify_exec(minus: usize, plus: usize) -> (r: DiffCases)
    ensures
        r == classify(minus as nat, plus as nat),
{
    if plus == 1 && minus > 1 {
        DiffCases::FewLinesReplacedWithSingleLine
    } else if minus > 1 && plus > 1 {
        DiffCases::FewLinesReplacedWithFewLines
    } else if minus == 1 && plus == 0 {
        DiffCases::SingleLineDeleted
    } else if plus == 0 && minus > 1 {
        DiffCases::FewLinesDeleted
    } else if minus == 1 && plus == 1 {
        DiffCases::SingleLineReplacedWithAnotherSingleLine
    } else if minus == 0 && plus > 0 {
        DiffCases::NewLinesAdded
    } else {
        DiffCases::NoneFound
    }
}

/// Classifies a hunk range such as `-2,5 +2`; `None` where `line` is not a
/// hunk range.
pub fn categorize_diff(line: &str) -> (r: Option<DiffCases>)
    ensures
        r == categorize_spec(line@),
{
    let v = chars_of(line);
    match hunk_range_positions(&v) {
        None => None,
        Some((_f1, c1, _f3, c3)) => {
            let minus = count_or_one_exec(&v, c1);
            let plus = count_or_one_exec(&v, c3);
            Some(classify_exec(minus, plus))
        },
    }
}

/// The four numbers of the hunk range `s`: start and count before, start and
/// count after; an omitted count is 1.
pub open spec fn hunk_numbers(s: Seq<char>) -> Option<(nat, nat, nat, nat)> {
    match hunk_range_fields(s) {
        None => None,
        Some((f1, c1, f3, c3)) => Some(
            (
                run_value(s, f1),
                match c1 {
                    None => 1nat,
                    Some(r) => run_value(s, r),
                },
                run_value(s, f3),
                match c3 {
                    None => 1nat,
                    Some(r) => run_value(s, r),
                },
            ),
        ),
    }
}

/// What `fetch_line_numbers` gives for `s`: the two sides of the hunk where
/// `s` is a hunk range whose numbers fit a `u32`.
pub open spec fn fetch_spec(s: Seq<char>) -> Option<(nat, nat, nat, nat)> {
    match hunk_numbers(s) {
        Some((a, b, c, d)) => if a <= u32::MAX && b <= u32::MAX && c <= u32::MAX && d
            <= u32::MAX {
            Some((a, b, c, d))
        } else {
            None
        },
        None => None,
    }
}

fn value_u32(v: &Vec<char>, c: Option<(usize, usize)>) -> (r: Option<u32>)
    requires
        c matches Some(x) ==> crate::hunk::digit_run(v@, x.0 as int, x.1 as int),
    ensures
        match c {
            None => r == Some(1u32),
            Some(x) => match r {
                Some(y) => run_value(v@, (x.0 as int, x.1 as int)) == y,
                None => run_value(v@, (x.0 as int, x.1 as int)) > u32::MAX,
            },
        },
{
    match c {
        None => Some(1),
        Some((a, b)) => match run_value_upto(v, a, b, u32::MAX as usize) {
            Some(x) => Some(x as u32),
            None => None,
        },
    }
}

/// Reads the two sides of a hunk range such as `-2,5 +2`: `None` where
/// `line` is not a hunk range or a number does not fit a `u32`.
pub fn read_hunk_range(line: &str) -> (r: Option<(LineChange, LineChange)>)
    ensures
        match r {
            None => fetch_spec(line@) is None,
            Some((before, after)) => {
                &&& fetch_spec(line@) == Some(
                    (
                        before.start_line_number as nat,
                        before.change_count as nat,
                        after.start_line_number as nat,
                        after.change_count as nat,
                    ),
                )
                &&& before.change_type == ChangeType::Deleted
                &&& after.change_type == ChangeType::Added
                &&& before.changed_content@.len() == 0
                &&& after.changed_content@.len() == 0
            },
        },
{
    let v = chars_of(line);
    match hunk_range_positions(&v) {
        None => None,
        Some((f1, c1, f3, c3)) => {
            let line_before = match value_u32(&v, Some(f1)) {
                Some(x) => x,
                None => {
                    return None;
                },
            };
            let line_before_count = match value_u32(&v, c1) {
                Some(x) => x,
                None => {
                    return None;
                },
            };
            let line_after = match value_u32(&v, Some(f3)) {
                Some(x) => x,
                None => {
                    return None;
                },
            };
            let line_after_count = match value_u32(&v, c3) {
                Some(x) => x,
                None => {
                    return None;
                },
            };
            Some(
                (
                    LineChange {
                        start_line_number: line_before,
                        change_type: ChangeType::Deleted,
                        change_count: line_before_count,
                        changed_content: Vec::new(),
                    },
                    LineChange {
                        start_line_number: line_after,
                        change_type: ChangeType::Added,
                        change_count: line_after_count,
                        changed_content: Vec::new(),
                    },
                ),
            )
        },
    }
}

/// Reads the two sides of the hunk range `line`, such as `-2,5 +2`: the
/// old side as deleted lines, the new side as added lines. `line` must be a
/// hunk range whose numbers fit a `u32` (`read_hunk_range` tells).
pub fn fetch_line_numbers(line: String) -> (r: Option<(LineChange, LineChange)>)
    requires
        fetch_spec(line@) is Some,
    ensures
        match r {
            None => false,
            Some((before, after)) => {
                &&& fetch_spec(line@) == Some(
                    (
                        before.start_line_number as nat,
                        before.change_count as nat,
                        after.start_line_number as nat,
                        after.change_count as nat,
                    ),
                )
                &&& before.change_type == ChangeType::Deleted
                &&& after.change_type == ChangeType::Added
                &&& before.changed_content@.len() == 0
                &&& after.changed_content@.len() == 0
            },
        },
{
    read_hunk_range(line.as_str())
}

/// Whether a deleted line and an added line count as the same line: they
/// are equal.
pub fn is_similar(line_content: &str, added_line_content: &str) -> (r: bool)
    ensures
        r == (line_content@ == added_line_content@),
{
    str_eq(line_content, added_line_content)
}

/// Indices into `adds` of the lines equal to `d`, among the first `n`.
pub open spec fn matching_indices(d: Seq<char>, adds: Seq<Seq<char>>, n: nat) -> Seq<u32>
    decreases n,
{
    if n == 0 {
        Seq::empty()
    } else {
        matching_indices(d, adds, (n - 1) as nat) + if adds[n - 1] == d {
            seq![((n - 1) as usize) as u32]
        } else {
            Seq::empty()
        }
    }
}

/// For each deleted line in turn, the indices of the added lines equal to
/// it.
pub open spec fn replacements(dels: Seq<Seq<char>>, adds: Seq<Seq<char>>) -> Seq<u32>
    decreases dels.len(),
{
    if dels.len() == 0 {
        Seq::empty()
    } else {
        replacements(dels.drop_last(), adds) + matching_indices(dels.last(), adds, adds.len())
    }
}

/// Indices (into `added_content`) of added lines that repeat a deleted line,
/// one entry per matching pair, ordered by deleted line then added line.
pub fn find_replacements(deleted_content: Vec<String>, added_content: Vec<String>) -> (r: Vec<u32>)
    ensures
        r@ == replacements(views(deleted_content@), views(added_content@)),
{
    let ghost dels = views(deleted_content@);
    let ghost adds = views(added_content@);
    let mut out: Vec<u32> = Vec::new();
    let mut i: usize = 0;
    while i < deleted_content.len()
        invariant
            dels == views(deleted_content@),
            adds == views(added_content@),
            i <= deleted_content@.len(),
            out@ == replacements(dels.take(i as int), adds),
        decreases deleted_content@.len() - i,
    {
        let line_content = &deleted_content[i];
        let mut j: usize = 0;
        let ghost base = out@;
        while j < added_content.len()
            invariant
                dels == views(deleted_content@),
                adds == views(added_content@),
                i < deleted_content@.len(),
                line_content@ == dels[i as int],
                j <= added_content@.len(),
                out@ == base + matching_indices(dels[i as int], adds, j as nat),
            decreases added_content@.len() - j,
        {
            if is_similar(line_content.as_str(), added_content[j].as_str()) {
                out.push(j as u32);
            }
            assert(out@ =~= base + matching_indices(dels[i as int], adds, (j + 1) as nat));
            j = j + 1;
        }
        assert(dels.take(i + 1).drop_last() =~= dels.take(i as int));
        i = i + 1;
    }
    assert(dels.take(i as int) =~= dels);
    out
}

} // verus!

verus! {

/// The view of a line map: each line's details by their views.
pub open spec fn line_map_view(m: Map<u32, Vec<LineDetail>>) -> Map<u32, Seq<LineDetailView>> {
    m.map_values(|v: Vec<LineDetail>| v@.map_values(|d: LineDetail| d@))
}

/// A line's details after commit `h` gave it the content `content`: the
/// first record takes the content and gains `h`.
pub open spec fn touched(v: Seq<LineDetailView>, content: Seq<char>, h: Seq<char>) -> Seq<LineDetailView> {
    v.update(0, (content, v[0].1.push(h)))
}

/// The details of a line that commit `h` added with content `content`.
pub open spec fn fresh_line(content: Seq<char>, h: Seq<char>) -> Seq<LineDetailView> {
    seq![(content, seq![h])]
}

proof fn lemma_view_insert(m: Map<u32, Vec<LineDetail>>, k: u32, v: Vec<LineDetail>)
    ensures
        line_map_view(m.insert(k, v)) == line_map_view(m).insert(k, v@.map_values(|d: LineDetail| d@)),
{
    assert(line_map_view(m.insert(k, v)) =~= line_map_view(m).insert(k, v@.map_values(|d: LineDetail| d@)));
}

proof fn lemma_view_remove(m: Map<u32, Vec<LineDetail>>, k: u32)
    ensures
        line_map_view(m.remove(k)) == line_map_view(m).remove(k),
{
    assert(line_map_view(m.remove(k)) =~= line_map_view(m).remove(k));
}

pub(crate) fn clone_strings(v: &Vec<String>) -> (r: Vec<String>)
    ensures
        views(r@) == views(v@),
{
    let mut out: Vec<String> = Vec::new();
    let mut i: usize = 0;
    while i < v.len()
        invariant
            i <= v@.len(),
            views(out@) == views(v@).take(i as int),
        decreases v@.len() - i,
    {
        let c = v[i].clone();
        assert(c@ == views(v@)[i as int]);
        let ghost before = views(out@);
        out.push(c);
        assert(views(out@) =~= before.push(c@));
        assert(views(out@) =~= views(v@).take(i + 1));
        i = i + 1;
    }
    assert(views(v@).take(i as int) =~= views(v@));
    out
}

fn clone_detail(d: &LineDetail) -> (r: LineDetail)
    ensures
        r@ == d@,
{
    LineDetail { content: d.content.clone(), commit_hashes: clone_strings(&d.commit_hashes) }
}

pub(crate) fn contains_u32(v: &Vec<u32>, x: u32) -> (r: bool)
    ensures
        r == v@.contains(x),
{
    let mut i: usize = 0;
    while i < v.len()
        invariant
            i <= v@.len(),
            forall|j: int| 0 <= j < i ==> v@[j] != x,
        decreases v@.len() - i,
    {
        if v[i] == x {
            assert(v@[i as int] == x);
            return true;
        }
        i = i + 1;
    }
    false
}

/// Gives line `l`, where it is tracked, the content `content` and records
/// commit `h` on its first record.
fn touch_entry(map: &mut HashMap<u32, Vec<LineDetail>>, l: u32, content: String, h: &String)
    requires
        line_map_view(old(map)@).contains_key(l) ==> line_map_view(old(map)@)[l].len() >= 1,
    ensures
        line_map_view(final(map)@) == if line_map_view(old(map)@).contains_key(l) {
            line_map_view(old(map)@).insert(
                l,
                touched(line_map_view(old(map)@)[l], content@, h@),
            )
        } else {
            line_map_view(old(map)@)
        },
{
    let ghost m0 = map@;
    match map.remove(&l) {
        Some(mut v) => {
            let ghost v0 = v@;
            assert(v0.map_values(|d: LineDetail| d@) == line_map_view(m0)[l]);
            let mut d = v.remove(0);
            let hc = h.clone();
            d.commit_hashes.push(hc);
            d.content = content;
            v.insert(0, d);
            proof {
                assert(views(d.commit_hashes@) =~= v0[0]@.1.push(h@));
                assert(v@.map_values(|d: LineDetail| d@) =~= touched(line_map_view(m0)[l], content@, h@));
                lemma_view_remove(m0, l);
            }
            map.insert(l, v);
            proof {
                lemma_view_insert(m0.remove(l), l, v);
                assert(line_map_view(map@) =~= line_map_view(m0).insert(l, touched(line_map_view(m0)[l], content@, h@)));
            }
        },
        None => {
            assert(line_map_view(map@) =~= line_map_view(m0));
        },
    }
}

/// Records line `l` as added by commit `h` with content `content`.
fn set_fresh(map: &mut HashMap<u32, Vec<LineDetail>>, l: u32, content: String, h: &String)
    ensures
        line_map_view(final(map)@) == line_map_view(old(map)@).insert(l, fresh_line(content@, h@)),
{
    let ghost m0 = map@;
    let mut hashes: Vec<String> = Vec::new();
    hashes.push(h.clone());
    let mut v: Vec<LineDetail> = Vec::new();
    v.push(LineDetail { content, commit_hashes: hashes });
    map.remove(&l);
    map.insert(l, v);
    proof {
        assert(views(hashes@) =~= seq![h@]);
        assert(v@.map_values(|d: LineDetail| d@) =~= fresh_line(content@, h@));
        lemma_view_insert(m0.remove(l), l, v);
        assert(line_map_view(map@) =~= line_map_view(m0).insert(l, fresh_line(content@, h@)));
    }
}

/// Moves entries as `shifted` states, on the view of the map.
fn move_lines(map: &mut HashMap<u32, Vec<LineDetail>>, lo: u64, delta: i64)
    requires
        -0x1_0000_0000 < delta < 0x1_0000_0000,
    ensures
        line_map_view(final(map)@) == crate::line_map::shifted(
            line_map_view(old(map)@),
            lo as int,
            delta as int,
        ),
{
    let ghost m0 = map@;
    crate::line_map::move_keys(map, lo, delta);
    proof {
        crate::line_map::lemma_shifted_map_values(
            m0,
            lo as int,
            delta as int,
            |v: Vec<LineDetail>| v@.map_values(|d: LineDetail| d@),
        );
    }
}

} // verus!

verus! {

pub type LineMapView = Map<u32, Seq<LineDetailView>>;

/// Per-line rule that drops the line.
pub open spec fn drop_line() -> spec_fn(u32, Option<Seq<LineDetailView>>) -> Option<Seq<LineDetailView>> {
    |k: u32, o: Option<Seq<LineDetailView>>| None
}

/// Per-line rule that records line `k` as added by `h`, with the content
/// `ca[k - s]`.
pub open spec fn add_line(ca: Seq<Seq<char>>, s: int, h: Seq<char>) -> spec_fn(
    u32,
    Option<Seq<LineDetailView>>,
) -> Option<Seq<LineDetailView>> {
    |k: u32, o: Option<Seq<LineDetailView>>| Some(fresh_line(ca[k - s], h))
}

/// `-a +s,0` with `a` a single line: line `s` goes, later lines move up one.
pub open spec fn single_line_deleted_spec(m: LineMapView, s: u32) -> LineMapView {
    crate::line_map::shifted(m.remove(s), s + 1, -1)
}

/// `c` lines from `s` go; later lines move up by `c`.
pub open spec fn few_lines_deleted_spec(m: LineMapView, s: u32, c: u32) -> LineMapView {
    crate::line_map::shifted(
        crate::line_map::update_range(m, s as int, s + c, drop_line()),
        s + c,
        -c,
    )
}

/// Lines from `s` on move down by `c`, and lines `s..s + c` become the added
/// lines `ca`.
pub open spec fn new_lines_added_spec(
    m: LineMapView,
    h: Seq<char>,
    s: u32,
    c: u32,
    ca: Seq<Seq<char>>,
) -> LineMapView {
    crate::line_map::update_range(
        crate::line_map::shifted(m, s as int, c as int),
        s as int,
        s + c,
        add_line(ca, s as int, h),
    )
}

/// Line `s` takes the content `ca[0]`; its commit list gains `h` where `s`
/// is among the replaced lines, and becomes `[h]` otherwise.
pub open spec fn single_line_replaced_spec(
    m: LineMapView,
    h: Seq<char>,
    s: u32,
    ca: Seq<Seq<char>>,
    replaced: Seq<u32>,
) -> LineMapView {
    m.insert(
        s,
        m[s].update(
            0,
            (
                ca[0],
                if replaced.contains(s) {
                    m[s][0].1.push(h)
                } else {
                    seq![h]
                },
            ),
        ),
    )
}

fn single_line_deleted(map: &mut HashMap<u32, Vec<LineDetail>>, s: u32)
    ensures
        line_map_view(final(map)@) == single_line_deleted_spec(line_map_view(old(map)@), s),
{
    let ghost m0 = map@;
    map.remove(&s);
    proof {
        lemma_view_remove(m0, s);
    }
    move_lines(map, s as u64 + 1, -1);
}

fn few_lines_deleted(map: &mut HashMap<u32, Vec<LineDetail>>, s: u32, c: u32)
    requires
        s + c <= u32::MAX,
    ensures
        line_map_view(final(map)@) == few_lines_deleted_spec(line_map_view(old(map)@), s, c),
{
    let ghost m0 = line_map_view(map@);
    let e = s + c;
    let mut l = s;
    proof {
        crate::line_map::lemma_update_range_empty(m0, s as int, drop_line());
    }
    while l < e
        invariant
            s <= l <= e,
            e == s + c,
            line_map_view(map@) == crate::line_map::update_range(m0, s as int, l as int, drop_line()),
        decreases e - l,
    {
        let ghost before = map@;
        map.remove(&l);
        proof {
            lemma_view_remove(before, l);
            crate::line_map::lemma_update_range_step(m0, s as int, l, drop_line());
        }
        l = l + 1;
    }
    move_lines(map, e as u64, -(c as i64));
}

fn new_lines_added(
    map: &mut HashMap<u32, Vec<LineDetail>>,
    h: &String,
    s: u32,
    c: u32,
    ca: &Vec<String>,
)
    requires
        s + c <= u32::MAX,
        ca@.len() >= c,
        forall|k: u32| #[trigger] line_map_view(old(map)@).contains_key(k) && k >= s ==> k + c <= u32::MAX,
    ensures
        line_map_view(final(map)@) == new_lines_added_spec(
            line_map_view(old(map)@),
            h@,
            s,
            c,
            views(ca@),
        ),
{
    let ghost m0 = line_map_view(map@);
    move_lines(map, s as u64, c as i64);
    let ghost m1 = line_map_view(map@);
    let e = s + c;
    let mut l = s;
    proof {
        crate::line_map::lemma_update_range_empty(m1, s as int, add_line(views(ca@), s as int, h@));
    }
    while l < e
        invariant
            s <= l <= e,
            e == s + c,
            ca@.len() >= c,
            line_map_view(map@) == crate::line_map::update_range(
                m1,
                s as int,
                l as int,
                add_line(views(ca@), s as int, h@),
            ),
        decreases e - l,
    {
        let content = ca[(l - s) as usize].clone();
        assert(content@ == views(ca@)[l - s]);
        set_fresh(map, l, content, h);
        proof {
            crate::line_map::lemma_update_range_step(m1, s as int, l, add_line(views(ca@), s as int, h@));
        }
        l = l + 1;
    }
}

fn single_line_replaced(
    map: &mut HashMap<u32, Vec<LineDetail>>,
    h: &String,
    s: u32,
    ca: &Vec<String>,
    replaced: &Vec<u32>,
)
    requires
        line_map_view(old(map)@).contains_key(s),
        line_map_view(old(map)@)[s].len() >= 1,
        ca@.len() >= 1,
    ensures
        line_map_view(final(map)@) == single_line_replaced_spec(
            line_map_view(old(map)@),
            h@,
            s,
            views(ca@),
            replaced@,
        ),
{
    let ghost m0 = map@;
    match map.remove(&s) {
        Some(mut v) => {
            let ghost v0 = v@;
            assert(v0.map_values(|d: LineDetail| d@) == line_map_view(m0)[s]);
            let mut d = v.remove(0);
            if contains_u32(replaced, s) {
                d.commit_hashes.push(h.clone());
                assert(views(d.commit_hashes@) =~= v0[0]@.1.push(h@));
            } else {
                let mut fresh: Vec<String> = Vec::new();
                fresh.push(h.clone());
                d.commit_hashes = fresh;
                assert(views(d.commit_hashes@) =~= seq![h@]);
            }
            let new_content = ca[0].clone();
            d.content = new_content;
            v.insert(0, d);
            proof {
                assert(v@.map_values(|d: LineDetail| d@) =~= single_line_replaced_spec(
                    line_map_view(m0),
                    h@,
                    s,
                    views(ca@),
                    replaced@,
                )[s]);
                lemma_view_remove(m0, s);
            }
            map.insert(s, v);
            proof {
                lemma_view_insert(m0.remove(s), s, v);
                assert(line_map_view(map@) =~= single_line_replaced_spec(
                    line_map_view(m0),
                    h@,
                    s,
                    views(ca@),
                    replaced@,
                ));
            }
        },
        None => {
            assert(false);
        },
    }
}


/// `x` read as an `i32` (`x as i32`).
pub open spec fn as_i32(x: u32) -> int {
    if x < 0x8000_0000 {
        x as int
    } else {
        x - 0x1_0000_0000
    }
}

pub(crate) fn as_i32_exec(x: u32) -> (r: i64)
    ensures
        r == as_i32(x),
{
    if x < 0x8000_0000 {
        x as i64
    } else {
        x as i64 - 0x1_0000_0000
    }
}

/// Per-line rule, for a replaced line kept where it is tracked, and an
/// added line otherwise.
pub open spec fn keep_or_add(ca: Seq<Seq<char>>, s: int, h: Seq<char>, r: Seq<u32>) -> spec_fn(
    u32,
    Option<Seq<LineDetailView>>,
) -> Option<Seq<LineDetailView>> {
    |k: u32, o: Option<Seq<LineDetailView>>|
        if r.contains(k) {
            match o {
                Some(v) => Some(touched(v, ca[k - s], h)),
                None => None,
            }
        } else {
            Some(fresh_line(ca[k - s], h))
        }
}

/// Per-line rule: a replaced line takes its new content and gains `h`.
pub open spec fn touch_replaced(ca: Seq<Seq<char>>, s: int, h: Seq<char>, r: Seq<u32>) -> spec_fn(
    u32,
    Option<Seq<LineDetailView>>,
) -> Option<Seq<LineDetailView>> {
    |k: u32, o: Option<Seq<LineDetailView>>|
        if r.contains(k) {
            Some(touched(o.unwrap(), ca[k - s], h))
        } else {
            o
        }
}

/// Per-line rule: a line that was not replaced goes.
pub open spec fn drop_unreplaced(r: Seq<u32>) -> spec_fn(
    u32,
    Option<Seq<LineDetailView>>,
) -> Option<Seq<LineDetailView>> {
    |k: u32, o: Option<Seq<LineDetailView>>|
        if r.contains(k) {
            o
        } else {
            None
        }
}

/// Per-line rule: a line that was not replaced is recorded as added.
pub open spec fn add_unreplaced(ca: Seq<Seq<char>>, s: int, h: Seq<char>, r: Seq<u32>) -> spec_fn(
    u32,
    Option<Seq<LineDetailView>>,
) -> Option<Seq<LineDetailView>> {
    |k: u32, o: Option<Seq<LineDetailView>>|
        if r.contains(k) {
            o
        } else {
            Some(fresh_line(ca[k - s], h))
        }
}

/// `cb` lines from `s` were replaced by `ca_n` lines (contents `ca`). With
/// `diff = ca_n - cb` (each count read as an `i32`): when lines were gained,
/// lines from `s + cb` on move down by `diff`, then each line of `s..s +
/// ca_n` is kept as replaced or recorded as added; otherwise replaced lines
/// of `s..=s + cb` take their new content, the others of `s..s + cb` go,
/// the others of `s..s + ca_n` are recorded as added, and lines from `s +
/// ca_n` on move up by `-diff` (modulo 2^32).
pub open spec fn few_replaced_with_few_spec(
    m: LineMapView,
    h: Seq<char>,
    s: u32,
    cb: u32,
    ca_n: u32,
    ca: Seq<Seq<char>>,
    r: Seq<u32>,
) -> LineMapView {
    let e = s + cb;
    let e2 = s + ca_n;
    let diff = as_i32(ca_n) - as_i32(cb);
    if diff > 0 {
        crate::line_map::update_range(
            crate::line_map::shifted(m, e, diff),
            s as int,
            e2,
            keep_or_add(ca, s as int, h, r),
        )
    } else {
        let m1 = crate::line_map::update_range(m, s as int, e + 1, touch_replaced(ca, s as int, h, r));
        let m2 = crate::line_map::update_range(m1, s as int, e, drop_unreplaced(r));
        let m3 = crate::line_map::update_range(m2, s as int, e2, add_unreplaced(ca, s as int, h, r));
        crate::line_map::shifted(m3, e2, diff)
    }
}

/// The inputs on which `few_replaced_with_few_spec` describes the run.
pub open spec fn few_replaced_with_few_ok(
    m: LineMapView,
    h: Seq<char>,
    s: u32,
    cb: u32,
    ca_n: u32,
    ca: Seq<Seq<char>>,
    r: Seq<u32>,
) -> bool {
    let e = s + cb;
    let e2 = s + ca_n;
    let diff = as_i32(ca_n) - as_i32(cb);
    &&& s + cb <= u32::MAX
    &&& s + ca_n <= u32::MAX
    &&& -0x8000_0000 <= diff <= 0x7fff_ffff
    &&& if diff > 0 {
        let m1 = crate::line_map::shifted(m, e, diff);
        &&& forall|k: u32| #[trigger] m.contains_key(k) && k >= e ==> k + diff <= u32::MAX && m[k].len() >= 1
        &&& ca.len() >= ca_n
        &&& forall|k: u32|
            s <= k < e2 && r.contains(k) && #[trigger] m1.contains_key(k) ==> m1[k].len() >= 1
    } else {
        let m1 = crate::line_map::update_range(m, s as int, e + 1, touch_replaced(ca, s as int, h, r));
        let m2 = crate::line_map::update_range(m1, s as int, e, drop_unreplaced(r));
        let m3 = crate::line_map::update_range(m2, s as int, e2, add_unreplaced(ca, s as int, h, r));
        &&& forall|k: u32|
            s <= k <= e && #[trigger] r.contains(k) ==> m.contains_key(k) && m[k].len() >= 1 && k - s
                < ca.len()
        &&& forall|k: u32| s <= k < e2 && !#[trigger] r.contains(k) ==> k - s < ca.len()
        &&& forall|k: u32|
            #[trigger] m3.contains_key(k) && k >= e2 ==> !(k >= 0x8000_0000 && k + diff < 0x8000_0000)
    }
}

fn touch_if_replaced(
    map: &mut HashMap<u32, Vec<LineDetail>>,
    h: &String,
    l: u32,
    s: u32,
    ca: &Vec<String>,
    replaced: &Vec<u32>,
    strict: bool,
)
    requires
        s <= l,
        replaced@.contains(l) && (strict || line_map_view(old(map)@).contains_key(l)) ==> l - s
            < ca@.len() && line_map_view(old(map)@).contains_key(l) && line_map_view(
            old(map)@,
        )[l].len() >= 1,
    ensures
        line_map_view(final(map)@) == if replaced@.contains(l) && line_map_view(old(map)@).contains_key(
            l,
        ) {
            line_map_view(old(map)@).insert(
                l,
                touched(line_map_view(old(map)@)[l], views(ca@)[l - s], h@),
            )
        } else {
            line_map_view(old(map)@)
        },
{
    if contains_u32(replaced, l) && map.contains_key(&l) {
        let content = ca[(l - s) as usize].clone();
        assert(content@ == views(ca@)[l - s]);
        touch_entry(map, l, content, h);
    }
}

fn few_replaced_with_few(
    map: &mut HashMap<u32, Vec<LineDetail>>,
    h: &String,
    s: u32,
    cb: u32,
    ca_n: u32,
    ca: &Vec<String>,
    replaced: &Vec<u32>,
)
    requires
        few_replaced_with_few_ok(line_map_view(old(map)@), h@, s, cb, ca_n, views(ca@), replaced@),
    ensures
        line_map_view(final(map)@) == few_replaced_with_few_spec(
            line_map_view(old(map)@),
            h@,
            s,
            cb,
            ca_n,
            views(ca@),
            replaced@,
        ),
{
    let ghost m0 = line_map_view(map@);
    let ghost cav = views(ca@);
    let ghost r = replaced@;
    let e = s + cb;
    let e2 = s + ca_n;
    let diff: i64 = as_i32_exec(ca_n) - as_i32_exec(cb);
    if diff > 0 {
        move_lines(map, e as u64, diff);
        let ghost m1 = line_map_view(map@);
        let ghost f = keep_or_add(cav, s as int, h@, r);
        proof {
            crate::line_map::lemma_update_range_empty(m1, s as int, f);
        }
        let mut l = s;
        while l < e2
            invariant
                s <= l <= e2,
                e2 == s + ca_n,
                cav == views(ca@),
                r == replaced@,
                f == keep_or_add(cav, s as int, h@, r),
                ca@.len() >= ca_n,
                forall|k: u32|
                    s <= k < e2 && r.contains(k) && #[trigger] m1.contains_key(k) ==> m1[k].len() >= 1,
                line_map_view(map@) == crate::line_map::update_range(m1, s as int, l as int, f),
            decreases e2 - l,
        {
            proof {
                assert(line_map_view(map@).contains_key(l) == m1.contains_key(l));
            }
            if contains_u32(replaced, l) {
                touch_if_replaced(map, h, l, s, ca, replaced, false);
            } else {
                let content = ca[(l - s) as usize].clone();
                assert(content@ == cav[l - s]);
                set_fresh(map, l, content, h);
            }
            proof {
                crate::line_map::lemma_update_range_step(m1, s as int, l, f);
            }
            l = l + 1;
        }
    } else {
        let ghost f1 = touch_replaced(cav, s as int, h@, r);
        let ghost f2 = drop_unreplaced(r);
        let ghost f3 = add_unreplaced(cav, s as int, h@, r);
        proof {
            crate::line_map::lemma_update_range_empty(m0, s as int, f1);
        }
        let mut l: u64 = s as u64;
        while l <= e as u64
            invariant
                s <= l <= e + 1,
                e == s + cb,
                e <= u32::MAX,
                cav == views(ca@),
                r == replaced@,
                f1 == touch_replaced(cav, s as int, h@, r),
                forall|k: u32|
                    s <= k <= e && #[trigger] r.contains(k) ==> m0.contains_key(k) && m0[k].len() >= 1
                        && k - s < ca@.len(),
                line_map_view(map@) == crate::line_map::update_range(m0, s as int, l as int, f1),
            decreases e + 1 - l,
        {
            let lu = l as u32;
            proof {
                assert(line_map_view(map@).contains_key(lu) == m0.contains_key(lu));
            }
            touch_if_replaced(map, h, lu, s, ca, replaced, true);
            proof {
                crate::line_map::lemma_update_range_step(m0, s as int, lu, f1);
            }
            l = l + 1;
        }
        let ghost m1 = line_map_view(map@);
        proof {
            crate::line_map::lemma_update_range_empty(m1, s as int, f2);
        }
        let mut l = s;
        while l < e
            invariant
                s <= l <= e,
                r == replaced@,
                f2 == drop_unreplaced(r),
                line_map_view(map@) == crate::line_map::update_range(m1, s as int, l as int, f2),
            decreases e - l,
        {
            if !contains_u32(replaced, l) {
                let ghost before = map@;
                map.remove(&l);
                proof {
                    lemma_view_remove(before, l);
                }
            }
            proof {
                crate::line_map::lemma_update_range_step(m1, s as int, l, f2);
            }
            l = l + 1;
        }
        let ghost m2 = line_map_view(map@);
        proof {
            crate::line_map::lemma_update_range_empty(m2, s as int, f3);
        }
        let mut l = s;
        while l < e2
            invariant
                s <= l <= e2,
                e2 == s + ca_n,
                cav == views(ca@),
                r == replaced@,
                f3 == add_unreplaced(cav, s as int, h@, r),
                forall|k: u32| s <= k < e2 && !#[trigger] r.contains(k) ==> k - s < ca@.len(),
                line_map_view(map@) == crate::line_map::update_range(m2, s as int, l as int, f3),
            decreases e2 - l,
        {
            if !contains_u32(replaced, l) {
                let content = ca[(l - s) as usize].clone();
                assert(content@ == cav[l - s]);
                set_fresh(map, l, content, h);
            }
            proof {
                crate::line_map::lemma_update_range_step(m2, s as int, l, f3);
            }
            l = l + 1;
        }
        move_lines(map, e2 as u64, diff);
    }
}


/// Per-line rule: a replaced line, where tracked, takes its new content and
/// gains `h`; any other line goes.
pub open spec fn touch_or_drop(ca: Seq<Seq<char>>, s: int, h: Seq<char>, r: Seq<u32>) -> spec_fn(
    u32,
    Option<Seq<LineDetailView>>,
) -> Option<Seq<LineDetailView>> {
    |k: u32, o: Option<Seq<LineDetailView>>|
        if r.contains(k) {
            match o {
                Some(v) => Some(touched(v, ca[k - s], h)),
                None => None,
            }
        } else {
            None
        }
}

/// `cb` lines from `s` were replaced by one line. Replaced lines of `s..s +
/// cb` that are tracked take their new content and gain `h`, the others
/// go; then every line from `s + cb` on moves up by `cb - 1`, taking the
/// place of what stood there.
pub open spec fn few_replaced_with_single_spec(
    m: LineMapView,
    h: Seq<char>,
    s: u32,
    cb: u32,
    ca: Seq<Seq<char>>,
    r: Seq<u32>,
) -> LineMapView {
    let e = s + cb;
    let m1 = crate::line_map::update_range(m, s as int, e, touch_or_drop(ca, s as int, h, r));
    crate::line_map::shifted(m1, e, 1 - cb)
}

/// The inputs on which such a hunk can be applied: it replaces at least one
/// line (or meets an empty map below a line other than 0), its end fits in
/// a `u32`, and each tracked replaced line holds a record and has its new
/// content.
pub open spec fn few_replaced_with_single_ok(
    m: LineMapView,
    h: Seq<char>,
    s: u32,
    cb: u32,
    ca: Seq<Seq<char>>,
    r: Seq<u32>,
) -> bool {
    let e = s + cb;
    &&& cb >= 1 || (s > 0 && m.dom().len() == 0)
    &&& s + cb <= u32::MAX
    &&& forall|k: u32|
        s <= k < e && r.contains(k) && #[trigger] m.contains_key(k) ==> m[k].len() >= 1 && k - s
            < ca.len()
}

fn few_replaced_with_single(
    map: &mut HashMap<u32, Vec<LineDetail>>,
    h: &String,
    s: u32,
    cb: u32,
    ca: &Vec<String>,
    replaced: &Vec<u32>,
)
    requires
        few_replaced_with_single_ok(line_map_view(old(map)@), h@, s, cb, views(ca@), replaced@),
    ensures
        line_map_view(final(map)@) == few_replaced_with_single_spec(
            line_map_view(old(map)@),
            h@,
            s,
            cb,
            views(ca@),
            replaced@,
        ),
{
    let ghost m0 = line_map_view(map@);
    let ghost cav = views(ca@);
    let ghost r = replaced@;
    let e = s + cb;
    let ghost f1 = touch_or_drop(cav, s as int, h@, r);
    proof {
        crate::line_map::lemma_update_range_empty(m0, s as int, f1);
    }
    let mut l = s;
    while l < e
        invariant
            s <= l <= e,
            e == s + cb,
            cav == views(ca@),
            r == replaced@,
            f1 == touch_or_drop(cav, s as int, h@, r),
            forall|k: u32|
                s <= k < e && r.contains(k) && #[trigger] m0.contains_key(k) ==> m0[k].len() >= 1
                    && k - s < ca@.len(),
            line_map_view(map@) == crate::line_map::update_range(m0, s as int, l as int, f1),
        decreases e - l,
    {
        proof {
            assert(line_map_view(map@).contains_key(l) == m0.contains_key(l));
        }
        if !contains_u32(replaced, l) {
            let ghost before = map@;
            map.remove(&l);
            proof {
                lemma_view_remove(before, l);
            }
        } else {
            touch_if_replaced(map, h, l, s, ca, replaced, false);
        }
        proof {
            crate::line_map::lemma_update_range_step(m0, s as int, l, f1);
        }
        l = l + 1;
    }
    let delta: i64 = 1 - cb as i64;
    move_lines(map, e as u64, delta);
}


/// The inputs on which a hunk of the given category, removing `cb` lines and
/// adding the `ca_n` lines `ca` at line `s`, can be applied to `m` (elsewhere
/// the map's state would call for a line it lacks, or a line number would
/// leave the `u32` range).
pub open spec fn reorder_ok_at(
    h: Seq<char>,
    category: Option<DiffCases>,
    m: LineMapView,
    cb: u32,
    s: u32,
    ca_n: u32,
    ca: Seq<Seq<char>>,
    r: Seq<u32>,
) -> bool {
    match category {
        Some(DiffCases::FewLinesReplacedWithSingleLine) => few_replaced_with_single_ok(m, h, s, cb, ca, r),
        Some(DiffCases::FewLinesReplacedWithFewLines) => few_replaced_with_few_ok(m, h, s, cb, ca_n, ca, r),
        Some(DiffCases::FewLinesDeleted) => s + cb <= u32::MAX,
        Some(DiffCases::SingleLineReplacedWithAnotherSingleLine) => m.contains_key(s) && m[s].len()
            >= 1 && ca.len() >= 1,
        Some(DiffCases::NewLinesAdded) => {
            &&& s + ca_n <= u32::MAX
            &&& ca.len() >= ca_n
            &&& forall|k: u32| #[trigger] m.contains_key(k) && k >= s ==> k + ca_n <= u32::MAX
        },
        _ => true,
    }
}

/// The line map after a hunk of the given category from commit `h`,
/// removing `cb` lines and adding the `ca_n` lines `ca` at line `s`, is
/// applied to `m`.
pub open spec fn reorder_at(
    h: Seq<char>,
    category: Option<DiffCases>,
    m: LineMapView,
    cb: u32,
    s: u32,
    ca_n: u32,
    ca: Seq<Seq<char>>,
    r: Seq<u32>,
) -> LineMapView {
    match category {
        Some(DiffCases::FewLinesReplacedWithSingleLine) => few_replaced_with_single_spec(m, h, s, cb, ca, r),
        Some(DiffCases::FewLinesReplacedWithFewLines) => few_replaced_with_few_spec(m, h, s, cb, ca_n, ca, r),
        Some(DiffCases::SingleLineDeleted) => single_line_deleted_spec(m, s),
        Some(DiffCases::FewLinesDeleted) => few_lines_deleted_spec(m, s, cb),
        Some(DiffCases::SingleLineReplacedWithAnotherSingleLine) => single_line_replaced_spec(m, h, s, ca, r),
        Some(DiffCases::NewLinesAdded) => new_lines_added_spec(m, h, s, ca_n, ca),
        _ => m,
    }
}

/// The inputs on which `reorder_map` runs to its end.
pub open spec fn reorder_ok(
    h: Seq<char>,
    category: Option<DiffCases>,
    m: LineMapView,
    before: LineChange,
    after: LineChange,
    r: Seq<u32>,
) -> bool {
    reorder_ok_at(
        h,
        category,
        m,
        before.change_count,
        after.start_line_number,
        after.change_count,
        views(after.changed_content@),
        r,
    )
}

/// The line map after `reorder_map` applies a hunk of the given category,
/// from commit `h`, to `m`.
pub open spec fn reorder_spec(
    h: Seq<char>,
    category: Option<DiffCases>,
    m: LineMapView,
    before: LineChange,
    after: LineChange,
    r: Seq<u32>,
) -> LineMapView {
    reorder_at(
        h,
        category,
        m,
        before.change_count,
        after.start_line_number,
        after.change_count,
        views(after.changed_content@),
        r,
    )
}

/// Applies one hunk of commit `commit_hash` to the line map: lines are
/// moved, dropped, given new content or added, as the category of the hunk
/// says (see `reorder_spec`); `replaced_content_line_numbers` names the
/// lines that were rewritten rather than removed.
pub fn reorder_map(
    commit_hash: String,
    category: Option<DiffCases>,
    map: &mut HashMap<u32, Vec<LineDetail>>,
    line_change_before: LineChange,
    line_change_after: LineChange,
    replaced_content_line_numbers: Vec<u32>,
)
    requires
        reorder_ok(
            commit_hash@,
            category,
            line_map_view(old(map)@),
            line_change_before,
            line_change_after,
            replaced_content_line_numbers@,
        ),
    ensures
        line_map_view(final(map)@) == reorder_spec(
            commit_hash@,
            category,
            line_map_view(old(map)@),
            line_change_before,
            line_change_after,
            replaced_content_line_numbers@,
        ),
{
    let s = line_change_after.start_line_number;
    match category {
        Some(DiffCases::FewLinesReplacedWithSingleLine) => {
            few_replaced_with_single(
                map,
                &commit_hash,
                s,
                line_change_before.change_count,
                &line_change_after.changed_content,
                &replaced_content_line_numbers,
            );
        },
        Some(DiffCases::FewLinesReplacedWithFewLines) => {
            few_replaced_with_few(
                map,
                &commit_hash,
                s,
                line_change_before.change_count,
                line_change_after.change_count,
                &line_change_after.changed_content,
                &replaced_content_line_numbers,
            );
        },
        Some(DiffCases::SingleLineDeleted) => {
            single_line_deleted(map, s);
        },
        Some(DiffCases::FewLinesDeleted) => {
            few_lines_deleted(map, s, line_change_before.change_count);
        },
        Some(DiffCases::SingleLineReplacedWithAnotherSingleLine) => {
            single_line_replaced(
                map,
                &commit_hash,
                s,
                &line_change_after.changed_content,
                &replaced_content_line_numbers,
            );
        },
        Some(DiffCases::NewLinesAdded) => {
            new_lines_added(
                map,
                &commit_hash,
                s,
                line_change_after.change_count,
                &line_change_after.changed_content,
            );
        },
        Some(DiffCases::NoneFound) => {},
        None => {},
    }
}

} // verus!

verus! {

/// How many lines `read_content` takes as deleted: `del`, or as many as
/// remain after `pos` among `n`.
pub open spec fn taken_deleted(n: nat, pos: nat, del: nat) -> nat {
    let avail: nat = if pos <= n { (n - pos) as nat } else { 0 };
    if del <= avail { del } else { avail }
}

/// How many lines `read_content` takes as added, after the deleted ones.
pub open spec fn taken_added(n: nat, pos: nat, del: nat, add: nat) -> nat {
    let avail: nat = if pos <= n { (n - pos) as nat } else { 0 };
    let rest: nat = (avail - taken_deleted(n, pos, del)) as nat;
    if add <= rest { add } else { rest }
}

/// The map after the added lines `adds` are recorded from line `s` on:
/// the `i`-th added line at line `s + i`, with no commit recorded, as far
/// as that number fits in a `u32`.
pub open spec fn fill_lines(m: LineMapView, s: nat, adds: Seq<Seq<char>>) -> LineMapView
    decreases adds.len(),
{
    if adds.len() == 0 {
        m
    } else {
        let m1 = fill_lines(m, s, adds.drop_last());
        let k = s + adds.len() - 1;
        if k <= u32::MAX {
            m1.insert(k as u32, seq![(adds.last(), Seq::<Seq<char>>::empty())])
        } else {
            m1
        }
    }
}

/// The map after `read_content` records the added lines `adds` from line
/// `start` on, where one is given.
pub open spec fn fill_added(m: LineMapView, start: Option<u32>, adds: Seq<Seq<char>>) -> LineMapView {
    match start {
        Some(s) => fill_lines(m, s as nat, adds),
        None => m,
    }
}

/// Each added line stands at its own line, `s + i`, and every line outside
/// `s..s + adds.len()` keeps what it had.
pub proof fn lemma_fill_lines(m: LineMapView, s: nat, adds: Seq<Seq<char>>)
    ensures
        forall|i: int|
            0 <= i < adds.len() && s + i <= u32::MAX ==> {
                &&& #[trigger] fill_lines(m, s, adds).contains_key((s + i) as u32)
                &&& fill_lines(m, s, adds)[(s + i) as u32] == seq![(adds[i], Seq::<Seq<char>>::empty())]
            },
        forall|k: u32|
            !(s <= k < s + adds.len()) ==> (#[trigger] fill_lines(m, s, adds).contains_key(k) == m.contains_key(k)
                && (m.contains_key(k) ==> fill_lines(m, s, adds)[k] == m[k])),
    decreases adds.len(),
{
    if adds.len() > 0 {
        let init = adds.drop_last();
        lemma_fill_lines(m, s, init);
        assert forall|i: int|
            0 <= i < adds.len() && s + i <= u32::MAX implies {
                &&& #[trigger] fill_lines(m, s, adds).contains_key((s + i) as u32)
                &&& fill_lines(m, s, adds)[(s + i) as u32] == seq![(adds[i], Seq::<Seq<char>>::empty())]
            } by {
            if i < adds.len() - 1 {
                assert(init[i] == adds[i]);
                assert(fill_lines(m, s, init).contains_key((s + i) as u32));
            }
        }
        assert forall|k: u32|
            !(s <= k < s + adds.len()) implies (#[trigger] fill_lines(m, s, adds).contains_key(k) == m.contains_key(k)
                && (m.contains_key(k) ==> fill_lines(m, s, adds)[k] == m[k])) by {
            assert(fill_lines(m, s, init).contains_key(k) == m.contains_key(k));
        }
    }
}

/// Reads the lines of a hunk from `all_lines` at `*pos`: first
/// `deleted_line_count` lines, then `added_line_count` lines, each as far as
/// lines remain, and moves `*pos` past them. Where
/// `start_line_number_if_to_add` is given, each added line is recorded at
/// that line number in `map_to_fill`.
pub fn read_content(
    all_lines: &Vec<String>,
    pos: &mut usize,
    deleted_line_count: u32,
    added_line_count: u32,
    map_to_fill: &mut HashMap<u32, Vec<LineDetail>>,
    start_line_number_if_to_add: Option<u32>,
) -> (r: (Vec<String>, Vec<String>))
    requires
        *old(pos) <= all_lines@.len(),
    ensures
        ({
            let n = all_lines@.len();
            let p = *old(pos) as nat;
            let nd = taken_deleted(n, p, deleted_line_count as nat);
            let na = taken_added(n, p, deleted_line_count as nat, added_line_count as nat);
            &&& *final(pos) == p + nd + na
            &&& views(r.0@) == views(all_lines@).subrange(p as int, (p + nd) as int)
            &&& views(r.1@) == views(all_lines@).subrange((p + nd) as int, (p + nd + na) as int)
            &&& line_map_view(final(map_to_fill)@) == fill_added(
                line_map_view(old(map_to_fill)@),
                start_line_number_if_to_add,
                views(r.1@),
            )
        }),
        start_line_number_if_to_add is None ==> line_map_view(final(map_to_fill)@) == line_map_view(
            old(map_to_fill)@,
        ),
        forall|i: int|
            #![trigger r.1@[i]]
            start_line_number_if_to_add is Some && 0 <= i < r.1@.len() && start_line_number_if_to_add->0 + i
                <= u32::MAX ==> {
                &&& line_map_view(final(map_to_fill)@).contains_key((start_line_number_if_to_add->0 + i) as u32)
                &&& line_map_view(final(map_to_fill)@)[(start_line_number_if_to_add->0 + i) as u32] == seq![
                    (r.1@[i]@, Seq::<Seq<char>>::empty()),
                ]
            },
        forall|k: u32|
            start_line_number_if_to_add is Some && !(start_line_number_if_to_add->0 <= k
                < start_line_number_if_to_add->0 + r.1@.len()) ==> {
                &&& #[trigger] line_map_view(final(map_to_fill)@).contains_key(k) == line_map_view(
                    old(map_to_fill)@,
                ).contains_key(k)
                &&& line_map_view(old(map_to_fill)@).contains_key(k) ==> line_map_view(final(map_to_fill)@)[k]
                    == line_map_view(old(map_to_fill)@)[k]
            },
{
    let ghost lv = views(all_lines@);
    let ghost m0 = line_map_view(map_to_fill@);
    let n = all_lines.len();
    let p0 = *pos;
    let mut p = p0;
    let mut deleted_content: Vec<String> = Vec::new();
    let mut k: u32 = 0;
    while k < deleted_line_count
        invariant
            lv == views(all_lines@),
            n == all_lines@.len(),
            p0 <= n,
            k <= deleted_line_count,
            p == p0 + taken_deleted(n as nat, p0 as nat, k as nat),
            views(deleted_content@) == lv.subrange(p0 as int, p as int),
        decreases deleted_line_count - k,
    {
        if p < n {
            let line = all_lines[p].clone();
            assert(line@ == lv[p as int]);
            let ghost before = views(deleted_content@);
            deleted_content.push(line);
            assert(views(deleted_content@) =~= before.push(line@));
            assert(views(deleted_content@) =~= lv.subrange(p0 as int, p + 1));
            p = p + 1;
        }
        k = k + 1;
    }
    let pd = p;
    let mut added_content: Vec<String> = Vec::new();
    let mut k: u32 = 0;
    assert(line_map_view(map_to_fill@) == fill_added(m0, start_line_number_if_to_add, views(added_content@)));
    while k < added_line_count
        invariant
            lv == views(all_lines@),
            n == all_lines@.len(),
            p0 <= pd <= n,
            pd == p0 + taken_deleted(n as nat, p0 as nat, deleted_line_count as nat),
            k <= added_line_count,
            p == pd + taken_added(n as nat, p0 as nat, deleted_line_count as nat, k as nat),
            views(added_content@) == lv.subrange(pd as int, p as int),
            line_map_view(map_to_fill@) == fill_added(m0, start_line_number_if_to_add, views(added_content@)),
        decreases added_line_count - k,
    {
        if p < n {
            let line = all_lines[p].clone();
            assert(line@ == lv[p as int]);
            match start_line_number_if_to_add {
                Some(start_line_number) => {
                    let key: u64 = start_line_number as u64 + added_content.len() as u64;
                    if key <= 0xffff_ffffu64 {
                        let mut v: Vec<LineDetail> = Vec::new();
                        let content = line.clone();
                        let no_hashes: Vec<String> = Vec::new();
                        assert(views(no_hashes@) =~= Seq::<Seq<char>>::empty());
                        v.push(LineDetail { content, commit_hashes: no_hashes });
                        let ghost before = map_to_fill@;
                        map_to_fill.insert(key as u32, v);
                        proof {
                            lemma_view_insert(before, key as u32, v);
                            assert(v@.map_values(|d: LineDetail| d@) =~= seq![(line@, Seq::<Seq<char>>::empty())]);
                        }
                    }
                },
                None => {},
            }
            let ghost before_adds = views(added_content@);
            added_content.push(line);
            assert(views(added_content@) =~= before_adds.push(line@));
            assert(views(added_content@) =~= lv.subrange(pd as int, p + 1));
            p = p + 1;
            proof {
                match start_line_number_if_to_add {
                    Some(st) => {
                        assert(views(added_content@).drop_last() =~= before_adds);
                        assert(line_map_view(map_to_fill@) =~= fill_added(m0, start_line_number_if_to_add, views(added_content@)));
                    },
                    None => {},
                }
            }
        }
        k = k + 1;
    }
    *pos = p;
    proof {
        match start_line_number_if_to_add {
            Some(st) => {
                lemma_fill_lines(m0, st as nat, views(added_content@));
                assert forall|i: int|
                    0 <= i < added_content@.len() && st + i <= u32::MAX implies {
                        &&& line_map_view(map_to_fill@).contains_key((st + i) as u32)
                        &&& line_map_view(map_to_fill@)[(st + i) as u32] == seq![
                            (#[trigger] added_content@[i]@, Seq::<Seq<char>>::empty()),
                        ]
                    } by {
                    assert(views(added_content@)[i] == added_content@[i]@);
                    assert(fill_lines(m0, st as nat, views(added_content@)).contains_key((st + i) as u32));
                }
                assert forall|k: u32|
                    !(st <= k < st + added_content@.len()) implies {
                        &&& #[trigger] line_map_view(map_to_fill@).contains_key(k) == m0.contains_key(k)
                        &&& m0.contains_key(k) ==> line_map_view(map_to_fill@)[k] == m0[k]
                    } by {
                    assert(fill_lines(m0, st as nat, views(added_content@)).contains_key(k) == m0.contains_key(k));
                }
            },
            None => {},
        }
    }
    (deleted_content, added_content)
}

} // verus!

verus! {

/// The first index, from `i` on, at which `c` occurs twice in a row.
pub open spec fn pair_from(s: Seq<char>, c: char, i: nat) -> Option<nat>
    decreases s.len() - i,
{
    if i + 1 >= s.len() {
        None
    } else if s[i as int] == c && s[(i + 1) as int] == c {
        Some(i)
    } else {
        pair_from(s, c, i + 1)
    }
}

/// A trimmed diff line that opens a hunk: it starts with `@@`.
pub open spec fn is_hunk_header(line: Seq<char>) -> bool {
    line.len() >= 2 && line[0] == '@' && line[1] == '@'
}

/// The hunk range of a hunk header: the text between its leading `@@` and
/// the next `@@`, trimmed; `None` where no second `@@` follows.
pub open spec fn header_range(line: Seq<char>) -> Option<Seq<char>> {
    match pair_from(line, '@', 2) {
        Some(i) => Some(trim(line.subrange(2, i as int))),
        None => None,
    }
}

/// `r` with `b` added to each entry; `None` where a sum leaves the `u32`
/// range.
pub open spec fn offset_lines(r: Seq<u32>, b: nat) -> Option<Seq<u32>> {
    if forall|j: int| 0 <= j < r.len() ==> #[trigger] r[j] + b <= u32::MAX {
        Some(r.map_values(|x: u32| (x + b) as u32))
    } else {
        None
    }
}

/// The message for a hunk header that lacks its closing `@@`.
pub open spec fn unclosed_header_message() -> Seq<char> {
    "hunk header without a closing @@"@
}

/// The message for a hunk range whose numbers cannot be read.
pub open spec fn bad_range_message() -> Seq<char> {
    "hunk range is not of the form -a[,b] +c[,d]"@
}

/// The message for a replaced line whose number leaves the `u32` range.
pub open spec fn line_overflow_message() -> Seq<char> {
    "line number out of range"@
}

/// The message for a hunk that the tracked lines cannot take.
pub open spec fn misfit_message() -> Seq<char> {
    "hunk does not fit the tracked lines"@
}

/// The outcome of `parse_diff` on the lines of a commit's diff from line
/// `i` on, with the line map at `m`: the final map, or the map at the
/// point of failure and the message.
pub open spec fn parse_from(
    h: Seq<char>,
    lines: Seq<Seq<char>>,
    i: nat,
    m: LineMapView,
) -> Result<LineMapView, (LineMapView, Seq<char>)>
    decreases lines.len() - i,
{
    if i >= lines.len() {
        Ok(m)
    } else {
        let line = trim(lines[i as int]);
        if !is_hunk_header(line) {
            parse_from(h, lines, i + 1, m)
        } else {
            match header_range(line) {
                None => Err((m, unclosed_header_message())),
                Some(range) => match fetch_spec(range) {
                    None => Err((m, bad_range_message())),
                    Some((bs, bc, as_, ac)) => {
                        let p = i + 1;
                        let nd = taken_deleted(lines.len(), p, bc);
                        let na = taken_added(lines.len(), p, bc, ac);
                        let dels = lines.subrange(p as int, (p + nd) as int);
                        let adds = lines.subrange((p + nd) as int, (p + nd + na) as int);
                        let next: nat = p + nd + na;
                        if m.is_empty() {
                            parse_from(h, lines, next, fill_added(m, Some(as_ as u32), adds))
                        } else {
                            match offset_lines(replacements(dels, adds), bs) {
                                None => Err((m, line_overflow_message())),
                                Some(r) => {
                                    let cat = categorize_spec(range);
                                    if reorder_ok_at(h, cat, m, bc as u32, as_ as u32, ac as u32, adds, r) {
                                        parse_from(
                                            h,
                                            lines,
                                            next,
                                            reorder_at(h, cat, m, bc as u32, as_ as u32, ac as u32, adds, r),
                                        )
                                    } else {
                                        Err((m, misfit_message()))
                                    }
                                },
                            }
                        }
                    },
                },
            }
        }
    }
}

fn find_pair(v: &Vec<char>, from: usize, c: char) -> (r: Option<usize>)
    ensures
        match r {
            Some(i) => pair_from(v@, c, from as nat) == Some(i as nat),
            None => pair_from(v@, c, from as nat) is None,
        },
{
    let n = v.len();
    let mut i = from;
    while i < n && n - i > 1
        invariant
            n == v@.len(),
            from <= i,
            pair_from(v@, c, from as nat) == pair_from(v@, c, i as nat),
        decreases n - i,
    {
        if v[i] == c && v[i + 1] == c {
            return Some(i);
        }
        i = i + 1;
    }
    None
}

fn header_check(line: &String) -> (r: bool)
    ensures
        r == is_hunk_header(line@),
{
    let v = chars_of(line.as_str());
    v.len() >= 2 && v[0] == '@' && v[1] == '@'
}

fn header_range_text(line: &String) -> (r: Option<String>)
    requires
        is_hunk_header(line@),
    ensures
        match r {
            Some(t) => header_range(line@) == Some(t@),
            None => header_range(line@) is None,
        },
{
    let v = chars_of(line.as_str());
    match find_pair(&v, 2, '@') {
        Some(i) => {
            proof {
                lemma_pair_from_bound(v@, '@', 2);
                assert(2 <= i && i + 1 < v@.len());
            }
            let mid = crate::text::substring(line.as_str(), 2, i);
            Some(trim_str(mid.as_str()))
        },
        None => None,
    }
}

proof fn lemma_pair_from_bound(s: Seq<char>, c: char, i: nat)
    ensures
        pair_from(s, c, i) matches Some(j) ==> i <= j && j + 1 < s.len(),
    decreases s.len() - i,
{
    if i + 1 < s.len() && !(s[i as int] == c && s[(i + 1) as int] == c) {
        lemma_pair_from_bound(s, c, i + 1);
    }
}

fn offset_lines_exec(found: &Vec<u32>, b: u32) -> (r: Option<Vec<u32>>)
    ensures
        match r {
            Some(v) => offset_lines(found@, b as nat) == Some(v@),
            None => offset_lines(found@, b as nat) is None,
        },
{
    let mut out: Vec<u32> = Vec::new();
    let mut i: usize = 0;
    while i < found.len()
        invariant
            i <= found@.len(),
            forall|j: int| 0 <= j < i ==> #[trigger] found@[j] + b <= u32::MAX,
            out@ == found@.take(i as int).map_values(|x: u32| (x + b) as u32),
        decreases found@.len() - i,
    {
        let x = found[i];
        if x as u64 + b as u64 > u32::MAX as u64 {
            return None;
        }
        out.push(x + b);
        assert(out@ =~= found@.take(i + 1).map_values(|x: u32| (x + b) as u32));
        i = i + 1;
    }
    assert(found@.take(i as int) =~= found@);
    Some(out)
}

/// Applies every hunk of one commit's diff (`git show --unified=0`) to the
/// line map, in order, as `parse_from` states: the first hunk that reaches
/// an empty map records its added lines, later ones are applied by
/// `reorder_map` with the added lines as the new content. Fails where a hunk
/// header cannot be read, a replaced line's number leaves the `u32` range,
/// or a hunk does not fit the tracked lines.
pub fn parse_diff(
    commit_hash: String,
    commit_diff: String,
    map: &mut HashMap<u32, Vec<LineDetail>>,
) -> (r: Result<(), String>)
    ensures
        match r {
            Ok(()) => parse_from(commit_hash@, lines_of(commit_diff@), 0, line_map_view(old(map)@))
                == Ok::<LineMapView, (LineMapView, Seq<char>)>(line_map_view(final(map)@)),
            Err(e) => parse_from(commit_hash@, lines_of(commit_diff@), 0, line_map_view(old(map)@))
                == Err::<LineMapView, (LineMapView, Seq<char>)>((line_map_view(final(map)@), e@)),
        },
{
    let all_lines = lines_str(commit_diff.as_str());
    let ghost lines = views(all_lines@);
    let ghost h = commit_hash@;
    let ghost m0 = line_map_view(map@);
    let mut pos: usize = 0;
    while pos < all_lines.len()
        invariant
            lines == views(all_lines@),
            lines == lines_of(commit_diff@),
            h == commit_hash@,
            m0 == line_map_view(old(map)@),
            pos <= all_lines@.len(),
            parse_from(h, lines, 0, m0) == parse_from(h, lines, pos as nat, line_map_view(map@)),
        decreases all_lines@.len() - pos,
    {
        let ghost i = pos as nat;
        let ghost m = line_map_view(map@);
        let line = trim_str(all_lines[pos].as_str());
        assert(line@ == trim(lines[i as int]));
        pos = pos + 1;
        if !header_check(&line) {
            continue;
        }
        let range = match header_range_text(&line) {
            Some(t) => t,
            None => {
                return Err(to_owned_string("hunk header without a closing @@"));
            },
        };
        let (before, mut after) = match read_hunk_range(range.as_str()) {
            Some(p) => p,
            None => {
                return Err(to_owned_string("hunk range is not of the form -a[,b] +c[,d]"));
            },
        };
        let category = categorize_diff(range.as_str());
        assert(m.dom() =~= map@.dom());
        if map.is_empty() {
            let _ = read_content(
                &all_lines,
                &mut pos,
                before.change_count,
                after.change_count,
                map,
                Some(after.start_line_number),
            );
        } else {
            let (deleted_content, added_content) = read_content(
                &all_lines,
                &mut pos,
                before.change_count,
                after.change_count,
                map,
                None,
            );
            let found = find_replacements(deleted_content, clone_strings(&added_content));
            let replaced = match offset_lines_exec(&found, before.start_line_number) {
                Some(v) => v,
                None => {
                    return Err(to_owned_string("line number out of range"));
                },
            };
            if !reorder_fits(
                category,
                map,
                before.change_count,
                after.start_line_number,
                after.change_count,
                &added_content,
                &replaced,
            ) {
                proof {
                    assert(!reorder_ok_at(
                        h,
                        category,
                        m,
                        before.change_count,
                        after.start_line_number,
                        after.change_count,
                        views(added_content@),
                        replaced@,
                    ));
                }
                return Err(to_owned_string("hunk does not fit the tracked lines"));
            }
            proof {
                assert(reorder_ok_at(
                    h,
                    category,
                    m,
                    before.change_count,
                    after.start_line_number,
                    after.change_count,
                    views(added_content@),
                    replaced@,
                ));
            }
            after.changed_content = added_content;
            reorder_map(commit_hash.clone(), category, map, before, after, replaced);
        }
    }
    Ok(())
}

} // verus!
