//! Plain data exchanged with the authentication collaborator: the
//! credentials a login request carries and the reply it returns.
//! Transport, sessions and password checks stay outside the library.

use vstd::prelude::*;

verus! {

/// Body of a login request: the account and password the user typed.
#[derive(Clone, Debug, PartialEq, Eq)]
pub struct Args {
    pub user_account: String,
    pub password: String,
}

impl Args {
    pub fn new(user_account: String, password: String) -> (a: Args)
        ensures
            a.user_account@ == user_account@,
            a.password@ == password@,
    {
        Args { user_account, password }
    }
}

/// Reply of a successful login: the opaque identifier of the user,
/// consumed by later menu fetches.
#[derive(Clone, Copy, Debug, PartialEq, Eq, Structural)]
pub struct LoginRes {
    pub userid: usize,
}

impl LoginRes {
    pub fn new(userid: usize) -> (r: LoginRes)
        ensures
            r.userid == userid,
    {
        LoginRes { userid }
    }
}

/// Middleware marker that guards the API routes: requests below `/api/`
/// pass only with an authenticated session. The request handling itself
/// lives with the web framework, outside the library.
#[derive(Clone, Copy, Debug, PartialEq, Eq, Structural)]
pub struct Authentication;

impl Authentication {
    pub fn new() -> (a: Authentication)
        ensures
            a == Authentication,
    {
        Authentication {}
    }
}

} // verus!
