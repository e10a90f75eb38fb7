use vstd::prelude::*;
use vstd::string::*;

use crate::request::{tagged, Battlesnake, Board, Game};
use crate::response::{InfoResponse, MoveResponse};

verus! {

/// How this agent presents itself.
pub fn info() -> (r: InfoResponse)
    ensures
        r.api_version@ == "1"@,
        r.author@ == "Zachatoo"@,
        r.color@ == "#000000"@,
        r.head@ == "dead"@,
        r.tail@ == "curled"@,
{
    InfoResponse {
        api_version: String::from_str("1"),
        author: String::from_str("Zachatoo"),
        color: String::from_str("#000000"),
        head: String::from_str("dead"),
        tail: String::from_str("curled"),
    }
}

/// The line to record when a game starts.
pub fn start(game: &Game, _turn: &u32, _board: &Board, _you: &Battlesnake) -> (r: String)
    ensures
        r@ == game.id@ + " GAME START"@,
{
    tagged(&game.id, " GAME START")
}

/// The line to record when a game ends.
pub fn end(game: &Game, _turn: &u32, _board: &Board, _you: &Battlesnake) -> (r: String)
    ensures
        r@ == game.id@ + " GAME OVER"@,
{
    tagged(&game.id, " GAME OVER")
}

/// This agent always moves right.
pub fn get_move(_game: &Game, _turn: &u32, _board: &Board, _you: &Battlesnake) -> (r: MoveResponse)
    ensures
        r.chosen_move@ == "right"@,
{
    MoveResponse { chosen_move: String::from_str("right") }
}

} // verus!
