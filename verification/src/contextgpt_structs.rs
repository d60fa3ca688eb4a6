//! The requests the tool answers and the records it keeps per line.
use std::str::FromStr;
use vstd::prelude::*;
use vstd::string::StringExecFns;
use crate::text::{str_eq, to_owned_string, views};

verus! {

/// The kinds of request the tool answers.
#[derive(Debug, Clone, Copy, PartialEq, Eq, Structural)]
pub enum RequestTypeOptions {
    Author,
    File,
    Index,
    Query,
    Descriptions,
    PRReviewComments,
    DescWithPRComments,
}

/// The request type that the text `s` names, if any.
pub open spec fn request_type_for(s: Seq<char>) -> Option<RequestTypeOptions> {
    if s == "author"@ {
        Some(RequestTypeOptions::Author)
    } else if s == "file"@ {
        Some(RequestTypeOptions::File)
    } else if s == "index"@ {
        Some(RequestTypeOptions::Index)
    } else if s == "query"@ {
        Some(RequestTypeOptions::Query)
    } else if s == "descriptions"@ {
        Some(RequestTypeOptions::Descriptions)
    } else if s == "desc"@ {
        Some(RequestTypeOptions::Descriptions)
    } else if s == "prreviewcomments"@ {
        Some(RequestTypeOptions::PRReviewComments)
    } else if s == "descwithprcomments"@ {
        Some(RequestTypeOptions::DescWithPRComments)
    } else if s == "desc-with-pr-comments"@ {
        Some(RequestTypeOptions::DescWithPRComments)
    } else {
        None
    }
}

/// The message for a text that names no request type.
pub open spec fn unknown_request_type_message(s: Seq<char>) -> Seq<char> {
    "Could not parse the request type: "@ + s
        + ", available field names: [\"Author\", \"File\", \"Index\", \"Query\", \"Descriptions\", \"PRReviewComments\", \"DescWithPRComments\"]"@
}

impl RequestTypeOptions {
    /// Reads a request type from its name on the command line.
    pub fn parse(request_type: &str) -> (r: Result<RequestTypeOptions, String>)
        ensures
            match r {
                Ok(t) => request_type_for(request_type@) == Some(t),
                Err(e) => request_type_for(request_type@) is None && e@ == unknown_request_type_message(
                    request_type@,
                ),
            },
    {
        if str_eq(request_type, "author") {
            Ok(RequestTypeOptions::Author)
        } else if str_eq(request_type, "file") {
            Ok(RequestTypeOptions::File)
        } else if str_eq(request_type, "index") {
            Ok(RequestTypeOptions::Index)
        } else if str_eq(request_type, "query") {
            Ok(RequestTypeOptions::Query)
        } else if str_eq(request_type, "descriptions") {
            Ok(RequestTypeOptions::Descriptions)
        } else if str_eq(request_type, "desc") {
            Ok(RequestTypeOptions::Descriptions)
        } else if str_eq(request_type, "prreviewcomments") {
            Ok(RequestTypeOptions::PRReviewComments)
        } else if str_eq(request_type, "descwithprcomments") {
            Ok(RequestTypeOptions::DescWithPRComments)
        } else if str_eq(request_type, "desc-with-pr-comments") {
            Ok(RequestTypeOptions::DescWithPRComments)
        } else {
            let mut e = to_owned_string("Could not parse the request type: ");
            e.append(request_type);
            e.append(
                ", available field names: [\"Author\", \"File\", \"Index\", \"Query\", \"Descriptions\", \"PRReviewComments\", \"DescWithPRComments\"]",
            );
            Err(e)
        }
    }
}

impl FromStr for RequestTypeOptions {
    type Err = String;

    fn from_str(request_type: &str) -> (r: Result<RequestTypeOptions, String>)
        ensures
            match r {
                Ok(t) => request_type_for(request_type@) == Some(t),
                Err(e) => request_type_for(request_type@) is None && e@ == unknown_request_type_message(
                    request_type@,
                ),
            },
    {
        RequestTypeOptions::parse(request_type)
    }
}

/// What blame reports for one line: the commit, its author, the file, the
/// files that commit touched, and the line range.
#[derive(Debug, Clone)]
pub struct AuthorDetails {
    pub commit_hash: String,
    pub author_full_name: String,
    pub origin_file_path: String,
    pub contextual_file_paths: Vec<String>,
    pub line_number: usize,
    pub end_line_number: usize,
}

/// The view of `AuthorDetails`, field by field.
pub type AuthorDetailsView = (Seq<char>, Seq<char>, Seq<char>, Seq<Seq<char>>, usize, usize);

impl View for AuthorDetails {
    type V = AuthorDetailsView;

    open spec fn view(&self) -> AuthorDetailsView {
        (
            self.commit_hash@,
            self.author_full_name@,
            self.origin_file_path@,
            views(self.contextual_file_paths@),
            self.line_number,
            self.end_line_number,
        )
    }
}

/// The view of an empty `AuthorDetails`.
pub open spec fn empty_author_details() -> AuthorDetailsView {
    (Seq::empty(), Seq::empty(), Seq::empty(), Seq::empty(), 0, 0)
}

impl Default for AuthorDetails {
    fn default() -> (r: Self)
        ensures
            r@ == empty_author_details(),
    {
        let r = AuthorDetails {
            commit_hash: String::new(),
            author_full_name: String::new(),
            origin_file_path: String::new(),
            contextual_file_paths: Vec::new(),
            line_number: 0,
            end_line_number: 0,
        };
        assert(views(r.contextual_file_paths@) =~= Seq::<Seq<char>>::empty());
        r
    }
}

/// The commits that touched one line of a file.
#[derive(Debug, Clone)]
pub struct AuthorDetailsV2 {
    pub line_number: usize,
    pub origin_file_path: String,
    pub commit_hashes: Vec<String>,
    pub author_full_name: Vec<String>,
}

/// The view of `AuthorDetailsV2`, field by field.
pub type AuthorDetailsV2View = (usize, Seq<char>, Seq<Seq<char>>, Seq<Seq<char>>);

impl View for AuthorDetailsV2 {
    type V = AuthorDetailsV2View;

    open spec fn view(&self) -> AuthorDetailsV2View {
        (self.line_number, self.origin_file_path@, views(self.commit_hashes@), views(self.author_full_name@))
    }
}

impl Default for AuthorDetailsV2 {
    fn default() -> (r: Self)
        ensures
            r@ == (0usize, Seq::<char>::empty(), Seq::<Seq<char>>::empty(), Seq::<Seq<char>>::empty()),
    {
        let r = AuthorDetailsV2 {
            line_number: 0,
            origin_file_path: String::new(),
            commit_hashes: Vec::new(),
            author_full_name: Vec::new(),
        };
        assert(views(r.commit_hashes@) =~= Seq::<Seq<char>>::empty());
        assert(views(r.author_full_name@) =~= Seq::<Seq<char>>::empty());
        r
    }
}

} // verus!
