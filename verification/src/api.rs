//! Plain data carriers handed to the HTTP layer around the canonicalizer.

use vstd::prelude::*;

verus! {

/// An API error's response body.
#[derive(Debug)]
pub struct ErrorBody {
    /// The computer-friendly error code in `SCREAMING_SNAKE_CASE`.
    pub code: &'static str,
    /// The human-friendly error message.
    pub message: String,
}

/// A value to be rendered as a JSON response body.
#[derive(Debug)]
pub struct Json<T>(pub T);

/// A `POST` response body carrying a newly created user's ID.
#[derive(Debug)]
pub struct PostResponse {
    /// The user's ID.
    pub id: String,
}

} // verus!
