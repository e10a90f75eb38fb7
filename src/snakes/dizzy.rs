use vstd::prelude::*;
use vstd::string::*;

use crate::logic::{avoid_bounds, avoid_snake_bodies, lemma_tail_step_unique, scan_tail, tail_step};
use crate::movement_set::{entries_of, joined_names, movement_name, pick_of, Movement, WeightedMovementSet};
use crate::request::{tagged, turn_wf, Battlesnake, Board, Game};
use crate::response::{InfoResponse, MoveShoutResponse};
use crate::snakes::rusty::safe_scores;

verus! {

/// Scores this agent may end a turn with: the safe moves, after the search for
/// its own tail.
pub open spec fn final_scores(board: Board, you: Battlesnake, s: Map<Movement, int>) -> bool {
    tail_step(board, you, safe_scores(board, you), s)
}

/// How this agent presents itself.
pub fn info() -> (r: InfoResponse)
    ensures
        r.api_version@ == "1"@,
        r.author@ == "Zachatoo"@,
        r.color@ == "#fff947"@,
        r.head@ == "caffeine"@,
        r.tail@ == "curled"@,
{
    InfoResponse {
        api_version: String::from_str("1"),
        author: String::from_str("Zachatoo"),
        color: String::from_str("#fff947"),
        head: String::from_str("caffeine"),
        tail: String::from_str("curled"),
    }
}

/// The line to record when a game starts.
pub fn start(game: &Game, _turn: &u32, _board: &Board, _you: &Battlesnake) -> (r: String)
    ensures
        r@ == game.id@ + " GAME START"@,
{
    tagged(&game.id, " GAME START")
}

/// The line to record when a game ends.
pub fn end(game: &Game, _turn: &u32, _board: &Board, _you: &Battlesnake) -> (r: String)
    ensures
        r@ == game.id@ + " GAME OVER"@,
{
    tagged(&game.id, " GAME OVER")
}

/// Runs every evaluator of this agent on a fresh set of moves.
pub fn movement_set(board: &Board, you: &Battlesnake) -> (r: WeightedMovementSet)
    requires
        turn_wf(*board, *you),
    ensures
        final_scores(*board, *you, r@),
{
    let mut set = WeightedMovementSet::new();
    assert(set@ =~= crate::snakes::rusty::fresh_scores());
    avoid_bounds(board.width, board.height, you, &mut set);
    avoid_snake_bodies(&board.snakes, you, &mut set);
    assert(set@ == safe_scores(*board, *you));
    scan_tail(board, you, &mut set);
    set
}

/// The move of this turn, with the moves that remained allowed.
pub fn get_move(_game: &Game, _turn: &u32, board: &Board, you: &Battlesnake) -> (r: MoveShoutResponse)
    requires
        turn_wf(*board, *you),
    ensures
        exists|s: Map<Movement, int>| #[trigger]
            final_scores(*board, *you, s) && r.chosen_move@ == movement_name(pick_of(s))
                && r.shout@ == joined_names(entries_of(s)),
{
    let set = movement_set(board, you);
    let chosen = set.pick_movement();
    let r = MoveShoutResponse { chosen_move: String::from_str(chosen.as_str()), shout: set.names() };
    assert(final_scores(*board, *you, set@));
    r
}

/// One snapshot gives one set of scores, and so one move: the decision is
/// deterministic.
pub proof fn lemma_same_snapshot_same_move(
    board: Board,
    you: Battlesnake,
    s1: Map<Movement, int>,
    s2: Map<Movement, int>,
)
    requires
        final_scores(board, you, s1),
        final_scores(board, you, s2),
    ensures
        s1 == s2,
        pick_of(s1) == pick_of(s2),
        entries_of(s1) == entries_of(s2),
{
    lemma_tail_step_unique(board, you, safe_scores(board, you), s1, s2);
}

} // verus!
