//! Which files the indexer skips.
use std::path::Path;
use vstd::prelude::*;
use crate::text::{views, has_suffix, strip_suffix_str};

verus! {

/// What `Path::starts_with` answers for the path `path` and the base
/// `base`: whether `base`'s components begin `path`'s.
pub uninterp spec fn path_starts_with_spec(path: Seq<char>, base: Seq<char>) -> bool;

/// `Path::starts_with` on two paths given as text: its answer is a function
/// of the two paths alone, which `path_starts_with_spec` names; how paths
/// are split into components is left unsaid.
#[verifier::external_body]
fn path_starts_with(path: &str, base: &str) -> (r: bool)
    ensures
        r == path_starts_with_spec(path@, base@),
{
    Path::new(path).starts_with(base)
}

/// An ignore entry without one trailing `*`.
pub open spec fn without_star(e: Seq<char>) -> Seq<char> {
    if has_suffix(e, seq!['*']) {
        e.drop_last()
    } else {
        e
    }
}

/// Some non-empty entry of `entries`, without a trailing `*`, begins the
/// path `path`.
pub open spec fn ignored_by(path: Seq<char>, entries: Seq<Seq<char>>) -> bool {
    exists|i: int|
        0 <= i < entries.len() && #[trigger] entries[i].len() > 0 && path_starts_with_spec(
            path,
            without_star(entries[i]),
        )
}

/// Whether the file at `relative_path` (relative to the workspace) is to be
/// skipped by the ignore entries `gitignore_data`.
pub fn should_be_ignored(relative_path: &str, gitignore_data: &Vec<String>) -> (r: bool)
    ensures
        r == ignored_by(relative_path@, views(gitignore_data@)),
{
    let ghost es = views(gitignore_data@);
    let mut i: usize = 0;
    while i < gitignore_data.len()
        invariant
            es == views(gitignore_data@),
            i <= gitignore_data@.len(),
            forall|j: int|
                0 <= j < i ==> !(#[trigger] es[j].len() > 0 && path_starts_with_spec(
                    relative_path@,
                    without_star(es[j]),
                )),
        decreases gitignore_data@.len() - i,
    {
        let entry = &gitignore_data[i];
        assert(entry@ == es[i as int]);
        if entry.unicode_len() > 0 {
            let stripped = match strip_suffix_str(entry.as_str(), "*") {
                Some(t) => {
                    proof {
                        reveal_strlit("*");
                    }
                    t
                },
                None => {
                    proof {
                        reveal_strlit("*");
                    }
                    entry.clone()
                },
            };
            assert(stripped@ == without_star(entry@)) by {
                reveal_strlit("*");
                assert("*"@ =~= seq!['*']);
                if has_suffix(entry@, seq!['*']) {
                    assert(entry@.take(entry@.len() - 1) =~= entry@.drop_last());
                }
            }
            if path_starts_with(relative_path, stripped.as_str()) {
                return true;
            }
        }
        i = i + 1;
    }
    false
}

} // verus!
