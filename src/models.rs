use vstd::prelude::*;

verus! {

/// A request was refused for want of valid credentials.
#[derive(Clone, Copy, Debug, PartialEq, Eq, Structural)]
pub struct Unauthorized;

/// A request named a document that does not exist.
#[derive(Clone, Copy, Debug, PartialEq, Eq, Structural)]
pub struct NotFound;

/// What a signed access token asserts: the user, its expiry (seconds since
/// the epoch) and the user's e-mail address.
#[derive(Debug)]
pub struct Claims {
    pub sub: String,
    pub exp: usize,
    pub email: String,
}

/// A login request.
#[derive(Debug)]
pub struct Login {
    pub user: String,
    pub password: String,
}

/// The body of a save request: new content for the path, or a move of
/// another document to it.
#[derive(Debug)]
pub enum NoteSave {
    Save { content: String, message: String },
    Rename { from: String },
}

} // verus!
