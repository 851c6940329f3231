//! The data handed to and received from the external issue collaborator,
//! and the verified decisions around its batch calls: building the API
//! endpoint and authorization header, deriving owner and repository from a
//! remote URL, and checking a batch of response statuses for the first
//! failure.

use vstd::prelude::*;
use vstd::string::StringExecFns;

use crate::text::{before_char, take_before_char};

verus! {

/// One issue as the collaborator reports it.
#[derive(Debug, Clone)]
pub struct Issue {
    pub title: String,
    pub number: i64,
    pub state: String,
}

/// The two issue states the collaborator can be asked for.
#[derive(Debug, PartialEq, Eq, Structural)]
pub enum IssueState {
    Open,
    Closed,
}

/// The collaborator's endpoint and credential, fixed at construction and
/// never read from the environment mid-pipeline.
pub struct GitIssue {
    url: String,
    token: String,
}

pub open spec fn api_url_spec(owner: Seq<char>, repo: Seq<char>) -> Seq<char> {
    ("https://api.github.com/repos/")@ + owner + ("/")@ + repo + ("/issues")@
}

pub open spec fn token_header_spec(token: Seq<char>) -> Seq<char> {
    ("token ")@ + token
}

impl GitIssue {
    pub closed spec fn url_spec(self) -> Seq<char> {
        self.url@
    }

    pub closed spec fn token_spec(self) -> Seq<char> {
        self.token@
    }

    /// Fixes the issues endpoint of one repository and the authorization
    /// header value built from the access token.
    pub fn new(owner: &str, repo: &str, token: &str) -> (r: GitIssue)
        ensures
            r.url_spec() == api_url_spec(owner@, repo@),
            r.token_spec() == token_header_spec(token@),
    {
        let url = String::from_str("https://api.github.com/repos/").concat(owner).concat(
            "/",
        ).concat(repo).concat("/issues");
        let header = String::from_str("token ").concat(token);
        proof {
            assert(url@ =~= api_url_spec(owner@, repo@));
            assert(header@ =~= token_header_spec(token@));
        }
        GitIssue { url, token: header }
    }

    /// The issues endpoint, for the caller that performs the calls.
    pub fn url(&self) -> (r: &String)
        ensures
            r@ == self.url_spec(),
    {
        &self.url
    }

    /// The authorization header value, for the caller that performs the
    /// calls.
    pub fn token(&self) -> (r: &String)
        ensures
            r@ == self.token_spec(),
    {
        &self.token
    }
}

/// The first position whose status differs from the expected one, if any:
/// the whole batch counts as failed as soon as one call failed, and nothing
/// of it is applied.
pub fn check_statuses(statuses: &Vec<u16>, expected: u16) -> (r: Option<usize>)
    ensures
        match r {
            Some(i) => i < statuses@.len() && statuses@[i as int] != expected && (forall|j: int|
                0 <= j < i ==> statuses@[j] == expected),
            None => forall|j: int| 0 <= j < statuses@.len() ==> statuses@[j] == expected,
        },
{
    let mut i: usize = 0;
    while i < statuses.len()
        invariant
            i <= statuses@.len(),
            forall|j: int| 0 <= j < i ==> statuses@[j] == expected,
        decreases statuses@.len() - i,
    {
        if statuses[i] != expected {
            return Some(i);
        }
        i += 1;
    }
    None
}

/// Splits a remote's `owner/repository` segments: the owner is the first
/// segment as it stands, the repository name is the second segment up to its
/// first `.` (shedding a `.git` suffix).
pub fn get_owner_and_repo<'a>(url: Vec<&'a str>) -> (r: (&'a str, String))
    requires
        url@.len() >= 2,
    ensures
        r.0@ == url@[0]@,
        r.1@ == before_char(url@[1]@, '.'),
{
    let owner = url[0];
    let repo = take_before_char(url[1], '.').to_owned();
    (owner, repo)
}

} // verus!
