//! The user's configuration, and trimming of comma-separated results.
use vstd::prelude::*;
use vstd::string::StringExecFns;
use crate::config;
use crate::text::{split_char, split_char_str, views};

verus! {

/// Limits that the user may configure.
#[derive(Debug)]
pub struct Config {
    pub file_count_threshold: usize,
    pub commit_hashes_threshold: usize,
}

impl Default for Config {
    fn default() -> (r: Self)
        ensures
            r.file_count_threshold == config::OUTPUT_COUNT_THRESHOLD,
            r.commit_hashes_threshold == config::LAST_MANY_COMMIT_HASHES,
    {
        Config {
            file_count_threshold: config::OUTPUT_COUNT_THRESHOLD,
            commit_hashes_threshold: config::LAST_MANY_COMMIT_HASHES,
        }
    }
}

/// The pieces `ps`, each followed by a comma.
pub open spec fn each_with_comma(ps: Seq<Seq<char>>) -> Seq<char>
    decreases ps.len(),
{
    if ps.len() == 0 {
        Seq::empty()
    } else {
        each_with_comma(ps.drop_last()) + ps.last() + seq![',']
    }
}

/// What `trim_result` gives for the text `inp`, whose comma-separated
/// pieces are `split_char(inp, ',')`: where there are more than `threshold`
/// pieces, the first `threshold + 1` joined by commas; otherwise every
/// piece followed by a comma.
pub open spec fn trimmed(inp: Seq<char>, threshold: nat) -> Seq<char> {
    let ps = split_char(inp, ',');
    if ps.len() > threshold {
        each_with_comma(ps.take(threshold as int)) + ps[threshold as int]
    } else {
        each_with_comma(ps)
    }
}

/// Keeps the first `threshold + 1` comma-separated items of `inp`.
pub fn trim_result(inp: String, threshold: usize) -> (r: String)
    ensures
        r@ == trimmed(inp@, threshold as nat),
{
    let pieces = split_char_str(inp.as_str(), ',');
    let ghost ps = split_char(inp@, ',');
    let mut final_str = String::new();
    let mut count: usize = 0;
    let mut i: usize = 0;
    assert(ps.take(0) =~= Seq::<Seq<char>>::empty());
    while i < pieces.len()
        invariant
            views(pieces@) == ps,
            ps == split_char(inp@, ','),
            i <= pieces@.len(),
            count == i,
            i <= threshold,
            final_str@ == each_with_comma(ps.take(i as int)),
        decreases pieces@.len() - i,
    {
        assert(pieces@[i as int]@ == ps[i as int]);
        final_str.append(pieces[i].as_str());
        count = count + 1;
        if count > threshold {
            assert(i == threshold);
            assert(final_str@ == each_with_comma(ps.take(threshold as int)) + ps[threshold as int]);
            return final_str;
        }
        final_str.append(",");
        proof {
            assert(ps.take(i + 1).drop_last() =~= ps.take(i as int));
            assert(","@ =~= seq![',']) by {
                reveal_strlit(",");
            }
        }
        i = i + 1;
    }
    assert(ps.take(i as int) =~= ps);
    final_str
}

} // verus!
