use vstd::prelude::*;

pub mod api;
pub mod browser;
pub mod checks;
pub mod gh_cli;
pub mod identifier;
pub mod land;
pub mod markdown;
pub mod order;
pub mod pull_request;
pub mod stack;
pub mod status;
pub mod text;
pub mod tree;

verus! {

/// The personal access token that authenticates calls to the forge.
pub struct Credentials {
    token: String,
}

impl Credentials {
    pub fn new(token: &str) -> (r: Credentials)
        ensures
            r.token_spec() == token@,
    {
        Credentials { token: crate::text::owned(token) }
    }

    pub closed spec fn token_spec(&self) -> Seq<char> {
        self.token@
    }

    pub fn token(&self) -> (r: &str)
        ensures
            r@ == self.token_spec(),
    {
        self.token.as_str()
    }
}

} // verus!
