//! Whether a file needs indexing again.
use vstd::prelude::*;
use crate::string_map::StringMap;
use crate::text::str_eq;

verus! {

/// Some path among `paths` has indexing metadata whose last commit is
/// `recent_commit`.
pub open spec fn indexed_at(m: Map<Seq<char>, Seq<Seq<char>>>, paths: Seq<Seq<char>>, recent_commit: Seq<char>) -> bool {
    exists|i: int|
        0 <= i < paths.len() && m.contains_key(#[trigger] paths[i]) && m[paths[i]].len() > 0
            && m[paths[i]].last() == recent_commit
}

/// The indexing metadata `m` records `recent_commit` as the last commit at
/// which `path` was indexed.
pub open spec fn last_indexed_at(m: Map<Seq<char>, Seq<Seq<char>>>, path: Seq<char>, recent_commit: Seq<char>) -> bool {
    m.contains_key(path) && m[path].len() > 0 && m[path].last() == recent_commit
}

/// A file counts as indexed as soon as any one of its paths was last
/// indexed at the commit, and only then.
pub proof fn lemma_indexed_by_any_path(m: Map<Seq<char>, Seq<Seq<char>>>, paths: Seq<Seq<char>>, recent_commit: Seq<char>)
    ensures
        forall|i: int|
            0 <= i < paths.len() && last_indexed_at(m, #[trigger] paths[i], recent_commit) ==> indexed_at(
                m,
                paths,
                recent_commit,
            ),
        indexed_at(m, paths, recent_commit) ==> exists|i: int|
            0 <= i < paths.len() && last_indexed_at(m, #[trigger] paths[i], recent_commit),
{
}

/// The answer does not depend on the order, or the repetition, of the
/// paths tried.
pub proof fn lemma_indexed_order_free(
    m: Map<Seq<char>, Seq<Seq<char>>>,
    paths: Seq<Seq<char>>,
    others: Seq<Seq<char>>,
    recent_commit: Seq<char>,
)
    requires
        paths.to_set() == others.to_set(),
    ensures
        indexed_at(m, paths, recent_commit) == indexed_at(m, others, recent_commit),
{
    lemma_indexed_by_any_path(m, paths, recent_commit);
    lemma_indexed_by_any_path(m, others, recent_commit);
    if indexed_at(m, paths, recent_commit) {
        let i = choose|i: int| 0 <= i < paths.len() && last_indexed_at(m, #[trigger] paths[i], recent_commit);
        assert(paths.to_set().contains(paths[i]));
        assert(others.to_set().contains(paths[i]));
        let j = choose|j: int| 0 <= j < others.len() && others[j] == paths[i];
        assert(last_indexed_at(m, others[j], recent_commit));
    }
    if indexed_at(m, others, recent_commit) {
        let j = choose|j: int| 0 <= j < others.len() && last_indexed_at(m, #[trigger] others[j], recent_commit);
        assert(others.to_set().contains(others[j]));
        assert(paths.to_set().contains(others[j]));
        let i = choose|i: int| 0 <= i < paths.len() && paths[i] == others[j];
        assert(last_indexed_at(m, paths[i], recent_commit));
    }
}

/// Whether the file, known by any of `possible_paths`, was last indexed at
/// its latest commit `recent_commit`, by the indexing metadata.
pub fn already_indexed(
    indexing_metadata: &StringMap<Vec<String>>,
    possible_paths: &Vec<String>,
    recent_commit: &str,
) -> (r: bool)
    requires
        indexing_metadata.wf(),
    ensures
        r == indexed_at(indexing_metadata.view_map(), crate::text::views(possible_paths@), recent_commit@),
        r <==> exists|i: int|
            0 <= i < possible_paths@.len() && last_indexed_at(
                indexing_metadata.view_map(),
                #[trigger] possible_paths@[i]@,
                recent_commit@,
            ),
{
    proof {
        let ps = crate::text::views(possible_paths@);
        lemma_indexed_by_any_path(indexing_metadata.view_map(), ps, recent_commit@);
        assert forall|i: int| 0 <= i < possible_paths@.len() implies #[trigger] possible_paths@[i]@ == ps[i] by {}
    }
    let ghost m = indexing_metadata.view_map();
    let ghost ps = crate::text::views(possible_paths@);
    let mut i: usize = 0;
    while i < possible_paths.len()
        invariant
            m == indexing_metadata.view_map(),
            ps == crate::text::views(possible_paths@),
            indexing_metadata.wf(),
            i <= possible_paths@.len(),
            forall|j: int|
                0 <= j < i ==> !(m.contains_key(#[trigger] ps[j]) && m[ps[j]].len() > 0 && m[ps[j]].last()
                    == recent_commit@),
        decreases possible_paths@.len() - i,
    {
        assert(ps[i as int] == possible_paths@[i as int]@);
        match indexing_metadata.get(possible_paths[i].as_str()) {
            Some(commits) => {
                let n = commits.len();
                if n > 0 {
                    assert(commits.deep_view()[n - 1] == commits@[n - 1]@);
                    if str_eq(commits[n - 1].as_str(), recent_commit) {
                        return true;
                    }
                }
            },
            None => {},
        }
        i = i + 1;
    }
    false
}

} // verus!
