use vstd::prelude::*;

verus! {

/// The answer to a move request.
#[derive(Debug)]
pub struct MoveResponse {
    pub chosen_move: String,
}

/// The answer to a move request, with the moves that remained allowed.
#[derive(Debug)]
pub struct MoveShoutResponse {
    pub chosen_move: String,
    pub shout: String,
}

/// How an agent presents itself.
#[derive(Debug)]
pub struct InfoResponse {
    pub api_version: String,
    pub author: String,
    pub color: String,
    pub head: String,
    pub tail: String,
}

} // verus!
