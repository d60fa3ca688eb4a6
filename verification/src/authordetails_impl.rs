//! Reading one line of `git blame` output into `AuthorDetails`.
use vstd::prelude::*;
use vstd::string::StringExecFns;
use crate::contextgpt_structs::{AuthorDetails, AuthorDetailsView, empty_author_details};
use crate::text::{words, split_whitespace_str, parse_unsigned, parse_usize, views, to_owned_string};

verus! {

/// The words `ws` joined by single spaces.
pub open spec fn join_with_spaces(ws: Seq<Seq<char>>) -> Seq<char>
    decreases ws.len(),
{
    if ws.len() == 0 {
        Seq::empty()
    } else if ws.len() == 1 {
        ws[0]
    } else {
        join_with_spaces(ws.drop_last()) + seq![' '] + ws.last()
    }
}

/// The last five of `ws`, or all of them where there are fewer.
pub open spec fn last_five(ws: Seq<Seq<char>>) -> Seq<Seq<char>> {
    if ws.len() <= 5 {
        ws
    } else {
        ws.skip(ws.len() - 5)
    }
}

/// The line number that ends a blame line: its last word, read as a
/// `usize`.
pub open spec fn blame_line_number(input: Seq<char>) -> Option<nat> {
    let ws = words(input);
    if ws.len() == 0 {
        None
    } else {
        parse_unsigned(ws.last(), usize::MAX as nat)
    }
}

/// What `serialize_from_str` gives.
pub open spec fn author_details_from(
    input: Seq<char>,
    commit_hash: Seq<char>,
    file_path: Seq<char>,
    context_file_paths: Seq<Seq<char>>,
    end_line_number: usize,
) -> AuthorDetailsView {
    match blame_line_number(input) {
        None => empty_author_details(),
        Some(n) => (
            commit_hash,
            join_with_spaces(last_five(words(input))),
            file_path,
            context_file_paths,
            n as usize,
            end_line_number,
        ),
    }
}

impl AuthorDetails {
    /// Builds the details of a line from a blame line such as
    /// `abc1234 (Jane Doe 2024-01-02 10:00:00 +0000 12)`: the line number is
    /// its last word, the author the last five words. A line that is empty
    /// or does not end in a number gives empty details.
    pub fn serialize_from_str(
        input_str: String,
        commit_hash: String,
        file_path: &str,
        context_file_paths: Vec<String>,
        end_line_number: usize,
    ) -> (r: AuthorDetails)
        ensures
            r@ == author_details_from(
                input_str@,
                commit_hash@,
                file_path@,
                views(context_file_paths@),
                end_line_number,
            ),
    {
        let parts = split_whitespace_str(input_str.as_str());
        let ghost ws = words(input_str@);
        let n = parts.len();
        if n == 0 {
            return AuthorDetails::default();
        }
        assert(parts@[n - 1]@ == ws.last());
        let line_number = match parse_usize(parts[n - 1].as_str()) {
            Some(x) => x,
            None => {
                return AuthorDetails::default();
            },
        };
        let start: usize = if n > 5 {
            n - 5
        } else {
            0
        };
        let ghost tail = last_five(ws);
        assert(tail =~= ws.subrange(start as int, n as int));
        let mut author = to_owned_string("");
        let mut k: usize = start;
        assert(""@ =~= Seq::<char>::empty()) by {
            reveal_strlit("");
        }
        assert(ws.subrange(start as int, start as int) =~= Seq::<Seq<char>>::empty());
        while k < n
            invariant
                views(parts@) == ws,
                n == ws.len(),
                start <= k <= n,
                author@ == join_with_spaces(ws.subrange(start as int, k as int)),
            decreases n - k,
        {
            let ghost before = ws.subrange(start as int, k as int);
            if k > start {
                author.append(" ");
                assert(" "@ =~= seq![' ']) by {
                    reveal_strlit(" ");
                }
            }
            assert(parts@[k as int]@ == ws[k as int]);
            author.append(parts[k].as_str());
            assert(ws.subrange(start as int, k + 1).drop_last() =~= before);
            assert(ws.subrange(start as int, k + 1).last() == ws[k as int]);
            if k == start {
                assert(ws.subrange(start as int, k + 1) =~= seq![ws[k as int]]);
            }
            k = k + 1;
        }
        AuthorDetails {
            commit_hash,
            author_full_name: author,
            origin_file_path: to_owned_string(file_path),
            line_number,
            contextual_file_paths: context_file_paths,
            end_line_number,
        }
    }
}

} // verus!
